use mirror_console::console::{
    adb, adb_dev, app_action_args, app_action_message, app_package, command_of, connect_target,
    doctor_outcome, escape_input_text, install_apk, key, list_serials, mirror_args,
    mirror_message, note, resolve_serial, route, run_failure_message, saved_message, scrcpy,
    screenshot_file, store_info_line, text, third_party_packages, tool, tool_report,
    unknown_command_message, version_line, wants_device_list, wifi_target, AppAction, Command,
};
use mirror_console::store::Store;

fn cs(s: &str) -> Vec<char> {
    s.chars().collect()
}

fn st(v: &[char]) -> String {
    v.iter().collect()
}

fn all(v: &[Vec<char>]) -> Vec<String> {
    v.iter().map(|l| st(l)).collect()
}

fn args(v: &[&str]) -> Vec<Vec<char>> {
    v.iter().map(|s| cs(s)).collect()
}

#[test]
fn routes_commands() {
    let r = route(&args(&[]));
    assert_eq!(r.command, Command::Help);
    assert_eq!(r.rest_start, 0);
    let r = route(&args(&["ios-swipe", "0.5"]));
    assert_eq!(r.command, Command::IosSwipe);
    assert_eq!(r.rest_start, 1);
    assert_eq!(command_of(&cs("-h")), Command::Help);
    assert_eq!(command_of(&cs("--version")), Command::Version);
    assert_eq!(command_of(&cs("set")), Command::SetSetting);
    assert_eq!(command_of(&cs("config")), Command::Config);
    assert_eq!(command_of(&cs("launch")), Command::Launch);
    assert_eq!(command_of(&cs("Help")), Command::Unknown);
    assert_eq!(st(&unknown_command_message(&cs("frob"))), "unknown command: frob\nrun `mconsole help`");
}

#[test]
fn tools_come_from_the_environment_unless_blank() {
    assert_eq!(st(&adb(None)), "adb");
    assert_eq!(st(&adb(Some(&cs("/opt/adb")))), "/opt/adb");
    assert_eq!(st(&scrcpy(Some(&cs("  \t")))), "scrcpy");
    assert_eq!(st(&tool(Some(&cs(" x ")), &cs("n"))), " x ");
}

#[test]
fn lists_ready_devices() {
    let out = "List of devices attached\nemulator-5554\tdevice\nR58M\tunauthorized\n\n  192.168.1.5:5555   device product:x\nlonely\n";
    assert_eq!(all(&list_serials(&cs(out))), vec!["emulator-5554", "192.168.1.5:5555"]);
    assert!(list_serials(&cs("")).is_empty());
    assert!(list_serials(&cs("emulator-5554\tdevice")).is_empty());
}

#[test]
fn resolves_serials() {
    let devs = args(&["a", "b"]);
    assert!(!wants_device_list(Some(&cs("xyz"))));
    assert!(wants_device_list(Some(&cs("-"))));
    assert!(wants_device_list(None));
    assert_eq!(st(&resolve_serial(Some(&cs("xyz")), &devs).unwrap()), "xyz");
    assert_eq!(st(&resolve_serial(Some(&cs("-")), &args(&["only"])).unwrap()), "only");
    assert_eq!(
        st(&resolve_serial(None, &devs).unwrap_err()),
        "multiple devices attached, specify one explicitly: a, b"
    );
    assert_eq!(
        st(&resolve_serial(None, &[]).unwrap_err()),
        "no devices in state `device` \u{2014} connect one or run `mconsole devices`"
    );
}

#[test]
fn adb_arguments() {
    assert_eq!(all(&adb_dev(&cs("S1"), &args(&["shell", "pm"]))), vec!["-s", "S1", "shell", "pm"]);
    assert_eq!(
        all(&app_action_args(AppAction::Launch, &cs("com.x"))),
        vec!["shell", "monkey", "-p", "com.x", "-c", "android.intent.category.LAUNCHER", "1"]
    );
    assert_eq!(all(&app_action_args(AppAction::Stop, &cs("com.x"))), vec!["shell", "am", "force-stop", "com.x"]);
}

#[test]
fn wifi_targets_get_the_default_port_once() {
    assert_eq!(st(&wifi_target(&cs("192.168.1.50"))), "192.168.1.50:5555");
    assert_eq!(st(&wifi_target(&cs("10.0.0.1:7000"))), "10.0.0.1:7000");
    let once = wifi_target(&cs("h"));
    assert_eq!(wifi_target(&once), once);
}

#[test]
fn packages_are_listed_sorted() {
    let out = "package:com.b\npackage:com.a \nnoise\npackage: com.c\r\npackage:com.a\n";
    assert_eq!(all(&third_party_packages(&cs(out))), vec!["com.a", "com.a", "com.b", "com.c"]);
    assert!(third_party_packages(&cs("")).is_empty());
}

#[test]
fn key_events() {
    let k = key(&args(&["-", "recents"])).ok().unwrap();
    assert_eq!(all(&k.shell_args), vec!["shell", "input", "keyevent", "KEYCODE_APP_SWITCH"]);
    assert_eq!(st(&k.message), "sent recents");
    assert_eq!(all(&key(&args(&["R58M", "volup"])).ok().unwrap().shell_args)[3], "KEYCODE_VOLUME_UP");
    assert_eq!(st(&key(&args(&["-"])).err().unwrap()), "usage: mconsole key <serial|-> <name>");
    assert_eq!(
        st(&key(&args(&["-", "boom"])).err().unwrap()),
        "unknown key `boom` (home|back|recent|power|volup|voldown|menu|enter)"
    );
}

#[test]
fn typing_text() {
    assert_eq!(st(&escape_input_text(&cs("hello world  x"))), "hello%sworld%s%sx");
    let t = text(&args(&["-", "h\u{e9} y"])).unwrap();
    assert_eq!(all(&t.shell_args), vec!["shell", "input", "text", "h\u{e9}%sy"]);
    assert_eq!(st(&t.message), "typed 5 chars");
    assert_eq!(st(&text(&args(&["-"])).err().unwrap()), "usage: mconsole text <serial|-> <string>");
}

#[test]
fn mirror_uses_stored_settings() {
    let mut s = Store::new();
    assert_eq!(all(&mirror_args(&cs("S"), &s)), vec!["-s", "S"]);
    s.set_setting(cs("video_fps"), cs("60"));
    s.set_setting(cs("video_max_size"), cs("1280"));
    assert_eq!(all(&mirror_args(&cs("S"), &s)), vec!["-s", "S", "--max-size", "1280", "--max-fps", "60"]);
}

#[test]
fn notes_join_their_words() {
    let n = note(&args(&["dev", "my", "test", "phone"])).ok().unwrap();
    assert_eq!(st(&n.serial), "dev");
    assert_eq!(st(&n.text), "my test phone");
    assert_eq!(st(&n.message), "note saved for dev");
    assert_eq!(st(&note(&args(&["dev"])).err().unwrap()), "usage: mconsole note <serial> <text...>");
    assert!(note(&args(&[])).is_err());
}

#[test]
fn tool_messages() {
    assert_eq!(
        st(&run_failure_message(&cs("adb"), &args(&["-s", "x", "shell"]), &cs("exit status: 1"), &cs("  boom \n"))),
        "`adb -s x shell` exited with exit status: 1: boom"
    );
    assert_eq!(
        st(&tool_report(&cs("adb"), &cs("adb"), &cs("MC_ADB"), Some(&cs("Android Debug Bridge 1.0\nmore")))),
        "[ok]   adb: Android Debug Bridge 1.0"
    );
    assert_eq!(st(&tool_report(&cs("adb"), &cs("/x/adb"), &cs("MC_ADB"), Some(&cs("")))), "[ok]   adb: /x/adb");
    assert_eq!(
        st(&tool_report(&cs("scrcpy"), &cs("scrcpy"), &cs("MC_SCRCPY"), None)),
        "[MISS] scrcpy: not found (set MC_SCRCPY or install it)"
    );
}

#[test]
fn doctor_fails_when_any_tool_is_missing() {
    assert!(doctor_outcome(&[true, true]).is_ok());
    assert!(doctor_outcome(&[]).is_ok());
    assert_eq!(st(&doctor_outcome(&[true, false]).unwrap_err()), "one or more required tools are missing");
    assert_eq!(st(&doctor_outcome(&[false, true]).unwrap_err()), "one or more required tools are missing");
}

#[test]
fn commands_read_their_arguments_or_give_usage() {
    assert_eq!(st(&connect_target(&args(&["10.0.0.7"])).unwrap()), "10.0.0.7:5555");
    assert_eq!(st(&connect_target(&args(&["10.0.0.7:7777", "x"])).unwrap()), "10.0.0.7:7777");
    assert_eq!(st(&connect_target(&args(&[])).unwrap_err()), "usage: mconsole connect <host[:port]>");
    assert_eq!(st(&install_apk(&args(&["-", "app.apk"])).unwrap()), "app.apk");
    assert_eq!(st(&install_apk(&args(&["-"])).unwrap_err()), "usage: mconsole install <serial|-> <apk>");
    assert_eq!(st(&app_package(&args(&["R58M", "com.example"])).unwrap()), "com.example");
    assert_eq!(
        st(&app_package(&args(&["R58M"])).unwrap_err()),
        "usage: mconsole <launch|stop> <serial|-> <package>"
    );
    assert_eq!(st(&screenshot_file(&args(&["-", "shot.png"])).unwrap()), "shot.png");
    assert_eq!(
        st(&screenshot_file(&args(&[])).unwrap_err()),
        "usage: mconsole screenshot <serial|-> <file.png>"
    );
}

#[test]
fn command_reports() {
    assert_eq!(app_action_message(AppAction::Launch, &cs("com.example")), None);
    assert_eq!(
        app_action_message(AppAction::Stop, &cs("com.example")).map(|m| st(&m)),
        Some("stopped com.example".to_string())
    );
    assert_eq!(st(&saved_message(0, &cs("a.png"))), "saved 0 bytes -> a.png");
    assert_eq!(st(&saved_message(123456, &cs("shot.png"))), "saved 123456 bytes -> shot.png");
    assert_eq!(
        st(&mirror_message(&cs("R58M"))),
        "[info] launching scrcpy for R58M (close the window to stop)"
    );
    assert_eq!(st(&version_line(&cs("0.1.0"))), "mirror-console 0.1.0 (local-only, no cloud)");
    assert_eq!(st(&store_info_line(&cs("/h/.config/mirror-console"))), "[info] store: /h/.config/mirror-console");
}
