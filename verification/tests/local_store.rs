use mirror_console::console::{set_setting, store_dir, store_file, ConfigEnv};
use mirror_console::store::{clean, Store};

fn cs(s: &str) -> Vec<char> {
    s.chars().collect()
}

fn st(v: &[char]) -> String {
    v.iter().collect()
}

fn lines_of(v: &[Vec<char>]) -> Vec<String> {
    v.iter().map(|l| st(l)).collect()
}

#[test]
fn store_text_lists_groups_in_key_order() {
    let mut s = Store::new();
    s.set_setting(cs("video_fps"), cs("60"));
    s.set_setting(cs("video_bit_rate"), cs("8M"));
    s.set_note(cs("R58M"), cs("test phone"));
    s.set_note(cs("A1"), cs("first"));
    s.record_endpoint(cs("192.168.1.50:5555"), 1725029869);
    assert_eq!(
        st(&s.text()),
        "S\tvideo_bit_rate\t8M\nS\tvideo_fps\t60\nN\tA1\tfirst\nN\tR58M\ttest phone\nW\t192.168.1.50:5555\t1725029869\n"
    );
}

#[test]
fn store_text_reads_back_as_the_same_store() {
    let mut s = Store::new();
    s.set_setting(cs("video_max_size"), cs("1280"));
    s.set_note(cs("emulator-5554"), cs("a note with spaces"));
    s.record_endpoint(cs("10.0.0.2:5555"), 42);
    let text = s.text();
    let back = Store::parse(&text);
    assert_eq!(st(&back.text()), st(&text));
    assert_eq!(back.setting(&cs("video_max_size")).map(|v| st(&v)), Some("1280".to_string()));
}

#[test]
fn store_text_cleans_tabs_and_newlines() {
    let mut s = Store::new();
    s.set_note(cs("a\tb"), cs("line1\nline2"));
    assert_eq!(st(&s.text()), "N\ta b\tline1 line2\n");
    assert_eq!(st(&clean(&cs("x\ty\nz"))), "x y z");
}

#[test]
fn parse_reads_records_and_skips_the_rest() {
    let txt = "S\tvideo_fps\t30\r\nX\tk\tv\nN\tdev\tnote\twith tab\nW\thost:1\tnot-a-number\njunk\nS\tvideo_fps\t60";
    let s = Store::parse(&cs(txt));
    assert_eq!(
        lines_of(&s.config_lines(&cs("/tmp/store.tsv"))),
        vec![
            "# store: /tmp/store.tsv",
            "[settings]",
            "video_fps = 60",
            "[notes]",
            "dev: note\twith tab",
            "[wifi_endpoints]",
            "host:1 (last_ok=0)",
        ]
    );
}

#[test]
fn empty_text_is_empty_store() {
    let s = Store::parse(&cs(""));
    assert_eq!(st(&s.text()), "");
}

#[test]
fn forget_endpoint_removes_only_it() {
    let mut s = Store::new();
    s.record_endpoint(cs("a:1"), 1);
    s.record_endpoint(cs("b:2"), 2);
    s.record_endpoint(cs("a:1"), 3);
    s.forget_endpoint(&cs("a:1"));
    assert_eq!(st(&s.text()), "W\tb:2\t2\n");
    s.forget_endpoint(&cs("zzz"));
    assert_eq!(st(&s.text()), "W\tb:2\t2\n");
}

#[test]
fn set_setting_validates_and_reads_back() {
    let mut s = Store::new();
    let ok = set_setting(&mut s, &[cs("video_fps"), cs("60")]).unwrap();
    assert_eq!(st(&ok), "video_fps = 60");
    assert_eq!(s.setting(&cs("video_fps")).map(|v| st(&v)), Some("60".to_string()));
    let e = set_setting(&mut s, &[cs("colour"), cs("red")]).unwrap_err();
    assert_eq!(st(&e), "unknown setting `colour` (video_max_size|video_bit_rate|video_fps)");
    let e = set_setting(&mut s, &[cs("video_fps")]).unwrap_err();
    assert_eq!(st(&e), "usage: mconsole set <key> <value>");
    assert_eq!(st(&s.text()), "S\tvideo_fps\t60\n");
}

fn env(d: Option<&str>, x: Option<&str>, h: Option<&str>, a: Option<&str>) -> ConfigEnv {
    ConfigEnv {
        mc_store_dir: d.map(cs),
        xdg_config_home: x.map(cs),
        home: h.map(cs),
        appdata: a.map(cs),
    }
}

#[test]
fn store_location_follows_the_environment() {
    assert_eq!(lines_of(&store_dir(&env(Some("/d"), Some("/x"), None, None))), vec!["/d"]);
    assert_eq!(lines_of(&store_dir(&env(None, Some("/x"), Some("/h"), None))), vec!["/x", "mirror-console"]);
    assert_eq!(
        lines_of(&store_dir(&env(None, None, Some("/h"), Some("C:"))),),
        vec!["/h", ".config", "mirror-console"]
    );
    assert_eq!(lines_of(&store_dir(&env(None, None, None, Some("C:")))), vec!["C:", "mirror-console"]);
    assert_eq!(lines_of(&store_file(&env(None, None, None, None))), vec![".", "mirror-console", "store.tsv"]);
}

#[test]
fn saved_text_has_one_line_per_entry_and_injects_nothing() {
    let mut s = Store::new();
    s.set_setting(cs("video_max_size"), cs("x\nS\tvideo_fps\t1"));
    s.set_note(cs("dev\tice"), cs("a\nb"));
    s.record_endpoint(cs("h\n:1"), 7);
    let text = st(&s.text());
    assert_eq!(text.lines().count(), 3);
    for l in text.lines() {
        let fields: Vec<&str> = l.split('\t').collect();
        assert_eq!(fields.len(), 3);
        assert!(["S", "N", "W"].contains(&fields[0]));
    }
    let back = Store::parse(&cs(&text));
    assert_eq!(back.setting(&cs("video_fps")), None);
    assert_eq!(back.setting(&cs("video_max_size")).map(|v| st(&v)), Some("x S video_fps 1".to_string()));
    assert_eq!(
        lines_of(&back.config_lines(&cs("p"))),
        vec![
            "# store: p",
            "[settings]",
            "video_max_size = x S video_fps 1",
            "[notes]",
            "dev ice: a b",
            "[wifi_endpoints]",
            "h :1 (last_ok=7)",
        ]
    );
}
