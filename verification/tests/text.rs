use actiowatch::models::StartupApp;
use actiowatch::modules::{
    find_field, is_white_space, list_modules, module_of, shared_object_path, shared_object_paths,
    ModuleInfo,
};
use actiowatch::priority::{nice_value, parse_priority, PriorityLevel};
use actiowatch::startup::{
    entry_matches, merge_registry_apps, parse_desktop_entry, with_hidden_flag, RegistryValue,
};
use actiowatch::text::{
    chars_of, contains_text, has_suffix, matches_at, same_text, split_lines,
};
use actiowatch::tray::{tray_action, view_name, TrayAction, ViewMode};

fn chars(text: &str) -> Vec<char> {
    text.chars().collect()
}

fn lines_by_span(text: &str) -> Vec<String> {
    let all = chars(text);
    split_lines(&all).into_iter().map(|(from, to)| all[from..to].iter().collect()).collect()
}

fn app(name: &str, path: &str, enabled: bool) -> StartupApp {
    StartupApp { name: name.to_string(), path: path.to_string(), enabled }
}

fn value(name: &str, value: &str) -> RegistryValue {
    RegistryValue { name: name.to_string(), value: value.to_string() }
}

fn strings(lines: &[&str]) -> Vec<String> {
    lines.iter().map(|l| l.to_string()).collect()
}

#[test]
fn characters_are_collected_in_order() {
    assert_eq!(chars_of("héllo\n"), vec!['h', 'é', 'l', 'l', 'o', '\n']);
    assert!(chars_of("").is_empty());
}

#[test]
fn texts_are_compared_whole() {
    assert!(same_text("abc", "abc"));
    assert!(same_text("", ""));
    assert!(!same_text("abc", "abd"));
    assert!(!same_text("abc", "ab"));
    assert!(!same_text("ab", "abc"));
}

#[test]
fn words_are_found_where_they_stand() {
    let text = chars("Name=Editor");
    assert!(matches_at(&text, 0, &chars("Name=")));
    assert!(matches_at(&text, 5, &chars("Editor")));
    assert!(!matches_at(&text, 1, &chars("Name=")));
    assert!(!matches_at(&text, 6, &chars("Editor")));
    assert!(matches_at(&text, 11, &chars("")));
    assert!(!matches_at(&text, 12, &chars("")));
    assert!(contains_text(&text, &chars("e=E")));
    assert!(contains_text(&text, &chars("")));
    assert!(!contains_text(&text, &chars("editor")));
    assert!(!contains_text(&chars("ab"), &chars("abc")));
    assert!(has_suffix(&text, &chars("tor")));
    assert!(has_suffix(&text, &chars("")));
    assert!(!has_suffix(&text, &chars("Name=")));
    assert!(!has_suffix(&chars("so"), &chars(".so")));
}

#[test]
fn lines_end_at_line_feeds() {
    assert_eq!(lines_by_span("a\nbc\n\nd"), vec!["a", "bc", "", "d"]);
    assert_eq!(lines_by_span("a\nb\n"), vec!["a", "b"]);
    assert_eq!(lines_by_span("\n"), vec![""]);
    assert_eq!(lines_by_span("\n\n"), vec!["", ""]);
    assert!(lines_by_span("").is_empty());
    assert_eq!(lines_by_span("one"), vec!["one"]);
}

#[test]
fn a_carriage_return_belongs_to_the_line_ending_only_before_a_line_feed() {
    assert_eq!(lines_by_span("a\r\nb\r\n"), vec!["a", "b"]);
    assert_eq!(lines_by_span("a\r"), vec!["a\r"]);
    assert_eq!(lines_by_span("a\r\r\nb"), vec!["a\r", "b"]);
    assert_eq!(lines_by_span("\r\n"), vec![""]);
    assert_eq!(lines_by_span("a\rb\n"), vec!["a\rb"]);
}

#[test]
fn lines_are_split_as_the_standard_library_splits_them() {
    for text in [
        "", "\n", "\r", "\r\n", "a", "a\n", "a\r\n", "a\n\nb", "a\r\n\r\nb\r", "\n\r\n\r",
        "x\ry\nz\r\r\n", "Name=A\nExec=B\n", "\r\r", "\n\n\n",
    ] {
        let expected: Vec<String> = text.lines().map(|l| l.to_string()).collect();
        assert_eq!(lines_by_span(text), expected, "{:?}", text);
    }
}

#[test]
fn a_desktop_entry_gives_name_command_and_switch() {
    let content = "[Desktop Entry]\nType=Application\nName=Editor\nExec=/usr/bin/edit --new\n";
    assert_eq!(parse_desktop_entry(content), Some(app("Editor", "/usr/bin/edit --new", true)));
}

#[test]
fn hidden_true_switches_off() {
    let content = "Name=Sync\nExec=sync-daemon\nHidden=true\n";
    assert_eq!(parse_desktop_entry(content), Some(app("Sync", "sync-daemon", false)));
    let content = "Name=Sync\nExec=sync-daemon\nHidden=false\n";
    assert_eq!(parse_desktop_entry(content), Some(app("Sync", "sync-daemon", true)));
    let content = "Name=Sync\nExec=sync-daemon\nHidden=True\n";
    assert_eq!(parse_desktop_entry(content), Some(app("Sync", "sync-daemon", true)));
    let content = "Name=Sync\nExec=sync-daemon\nHidden=true \n";
    assert_eq!(parse_desktop_entry(content), Some(app("Sync", "sync-daemon", true)));
    let content = "Name=Sync\nExec=sync-daemon\nHidden=true\r\n";
    assert_eq!(parse_desktop_entry(content), Some(app("Sync", "sync-daemon", false)));
}

#[test]
fn the_last_line_of_a_key_counts() {
    let content = "Name=Old\nExec=old\nHidden=true\nName=New\nHidden=false\nExec=new";
    assert_eq!(parse_desktop_entry(content), Some(app("New", "new", true)));
    let content = "Hidden=false\nName=A\nExec=a\nHidden=true";
    assert_eq!(parse_desktop_entry(content), Some(app("A", "a", false)));
}

#[test]
fn an_entry_needs_name_and_command() {
    assert_eq!(parse_desktop_entry(""), None);
    assert_eq!(parse_desktop_entry("Name=OnlyName\n"), None);
    assert_eq!(parse_desktop_entry("Exec=only-exec\nHidden=true\n"), None);
    assert_eq!(parse_desktop_entry(" Name=A\nExec=a\n"), None);
    assert_eq!(parse_desktop_entry("name=A\nExec=a\n"), None);
    assert_eq!(parse_desktop_entry("GenericName=A\nExec=a\n"), None);
}

#[test]
fn values_may_be_empty_or_hold_any_character() {
    assert_eq!(parse_desktop_entry("Name=\nExec="), Some(app("", "", true)));
    assert_eq!(
        parse_desktop_entry("Name=Füße=x\r\nExec=sh -c \"a=b\"\r\n"),
        Some(app("Füße=x", "sh -c \"a=b\"", true))
    );
    assert_eq!(parse_desktop_entry("Name=A\rExec=a\nExec=b"), Some(app("A\rExec=a", "b", true)));
}

#[test]
fn an_entry_is_recognised_by_name_and_command() {
    let content = "[Desktop Entry]\nName=Editor\nExec=/usr/bin/edit\n";
    assert!(entry_matches(content, "Editor", "/usr/bin/edit"));
    assert!(entry_matches(content, "Edit", "/usr/bin"));
    assert!(entry_matches(content, "", ""));
    assert!(!entry_matches(content, "Viewer", "/usr/bin/edit"));
    assert!(!entry_matches(content, "Editor", "/usr/bin/view"));
    assert!(!entry_matches("Name=A", "A", "a"));
    assert!(entry_matches("XName=A YExec=a", "A", "a"));
}

#[test]
fn switching_rewrites_the_hidden_line() {
    let content = "[Desktop Entry]\nName=A\nHidden=true\nExec=a\n";
    assert_eq!(
        with_hidden_flag(content, true),
        "[Desktop Entry]\nName=A\nExec=a\nHidden=false\n"
    );
    assert_eq!(
        with_hidden_flag(content, false),
        "[Desktop Entry]\nName=A\nExec=a\nHidden=true\n"
    );
}

#[test]
fn switching_drops_every_hidden_line_and_normalises_line_endings() {
    assert_eq!(
        with_hidden_flag("Hidden=false\r\nName=A\r\nHidden=x\r\nExec=a", false),
        "Name=A\nExec=a\nHidden=true\n"
    );
    assert_eq!(with_hidden_flag("", false), "\nHidden=true\n");
    assert_eq!(with_hidden_flag("", true), "\nHidden=false\n");
    assert_eq!(with_hidden_flag("Hidden=true\n", true), "\nHidden=false\n");
    assert_eq!(with_hidden_flag("\n", true), "\nHidden=false\n");
    assert_eq!(with_hidden_flag("\n\n", true), "\n\nHidden=false\n");
    assert_eq!(with_hidden_flag(" Hidden=true", true), " Hidden=true\nHidden=false\n");
}

#[test]
fn a_switched_entry_reads_back_as_switched() {
    let content = "Name=A\nExec=a\nHidden=true\n";
    assert_eq!(parse_desktop_entry(&with_hidden_flag(content, true)), Some(app("A", "a", true)));
    assert_eq!(parse_desktop_entry(&with_hidden_flag(content, false)), Some(app("A", "a", false)));
}

#[test]
fn registry_programs_are_merged() {
    let enabled = vec![value("A", "a.exe"), value("B", "b.exe")];
    let disabled = vec![value("C", "c.exe"), value("A", "other.exe"), value("C", "again.exe")];
    assert_eq!(
        merge_registry_apps(enabled, disabled),
        vec![app("A", "a.exe", true), app("B", "b.exe", true), app("C", "c.exe", false)]
    );
    assert!(merge_registry_apps(Vec::new(), Vec::new()).is_empty());
    assert_eq!(
        merge_registry_apps(vec![value("A", "1"), value("A", "2")], Vec::new()),
        vec![app("A", "1", true), app("A", "2", true)]
    );
}

#[test]
fn white_space_is_what_unicode_says() {
    for code in 0..=0x3100u32 {
        if let Some(c) = char::from_u32(code) {
            assert_eq!(is_white_space(c), c.is_whitespace(), "{:#x}", code);
        }
    }
    assert!(!is_white_space('\u{FEFF}'));
    assert!(!is_white_space('\u{10FFFF}'));
}

#[test]
fn fields_are_runs_without_white_space() {
    let line = chars("  ab\tcd   e ");
    assert_eq!(find_field(&line, 0), Some((2, 4)));
    assert_eq!(find_field(&line, 1), Some((5, 7)));
    assert_eq!(find_field(&line, 2), Some((10, 11)));
    assert_eq!(find_field(&line, 3), None);
    assert_eq!(find_field(&chars(""), 0), None);
    assert_eq!(find_field(&chars("   "), 0), None);
    assert_eq!(find_field(&chars("x"), 0), Some((0, 1)));
    assert_eq!(find_field(&chars("a\u{a0}b"), 1), Some((2, 3)));
}

#[test]
fn fields_are_split_as_the_standard_library_splits_them() {
    for line in ["", " ", "a", " a b ", "a\t\tb\u{2003}c", "7f00-7f01 r-xp 0 08:01 5 /lib/x.so"] {
        let all = chars(line);
        let expected: Vec<String> = line.split_whitespace().map(|f| f.to_string()).collect();
        for index in 0..expected.len() + 2 {
            let found: Option<String> =
                find_field(&all, index).map(|(from, to)| all[from..to].iter().collect());
            assert_eq!(found, expected.get(index).cloned(), "{:?} {}", line, index);
        }
    }
}

#[test]
fn a_shared_object_is_read_off_a_line() {
    let line = "7f1c2d400000-7f1c2d5b5000 r-xp 00000000 08:01 1234 /usr/lib/libc.so.6";
    assert_eq!(shared_object_path(line), Some("/usr/lib/libc.so.6".to_string()));
    let line = "7f1c2d400000-7f1c2d5b5000 r--p 00000000 08:01 99   /opt/app/libplug.so";
    assert_eq!(shared_object_path(line), Some("/opt/app/libplug.so".to_string()));
    let line = "7f1c2d400000-7f1c2d5b5000 r--p 00000000 08:01 99 /opt/libplug.so (deleted)";
    assert_eq!(shared_object_path(line), Some("/opt/libplug.so".to_string()));
}

#[test]
fn other_lines_name_no_shared_object() {
    assert_eq!(shared_object_path("55d0-55d1 r-xp 00000000 08:01 77 /usr/bin/also"), None);
    assert_eq!(shared_object_path("55d0-55d1 rw-p 00000000 00:00 0 [heap]"), None);
    assert_eq!(shared_object_path("55d0-55d1 rw-p 00000000 00:00 0"), None);
    assert_eq!(shared_object_path(""), None);
    assert_eq!(shared_object_path("a b c d e /lib/x.solid"), None);
    assert_eq!(shared_object_path("a b c d e .so"), Some(".so".to_string()));
    assert_eq!(shared_object_path("a b c d e so"), None);
    assert_eq!(shared_object_path("a b c d e x.so.bak"), Some("x.so.bak".to_string()));
}

#[test]
fn each_shared_object_is_listed_once() {
    let lines = strings(&[
        "1-2 r-xp 0 08:01 5 /lib/libc.so.6",
        "2-3 r--p 0 08:01 5 /lib/libc.so.6",
        "3-4 rw-p 0 00:00 0 [heap]",
        "4-5 r-xp 0 08:01 6 /lib/libm.so.6",
        "5-6 r-xp 0 08:01 7 /usr/bin/tool",
        "6-7 rw-p 0 08:01 5 /lib/libc.so.6",
        "7-8 r-xp 0 08:01 8 /opt/plug.so",
    ]);
    assert_eq!(
        shared_object_paths(&lines),
        strings(&["/lib/libc.so.6", "/lib/libm.so.6", "/opt/plug.so"])
    );
    assert_eq!(
        list_modules(&lines),
        vec![
            ModuleInfo { name: "libc.so.6".to_string(), path: "/lib/libc.so.6".to_string() },
            ModuleInfo { name: "libm.so.6".to_string(), path: "/lib/libm.so.6".to_string() },
            ModuleInfo { name: "plug.so".to_string(), path: "/opt/plug.so".to_string() },
        ]
    );
    assert!(list_modules(&Vec::new()).is_empty());
}

#[test]
fn a_path_without_file_name_is_listed_as_unknown() {
    let lines = strings(&["1-2 r-xp 0 08:01 5 /lib/x.so./.."]);
    assert_eq!(
        list_modules(&lines),
        vec![ModuleInfo { name: "Unknown".to_string(), path: "/lib/x.so./..".to_string() }]
    );
    assert_eq!(
        module_of("/p".to_string(), None),
        ModuleInfo { name: "Unknown".to_string(), path: "/p".to_string() }
    );
    assert_eq!(
        module_of("/p".to_string(), Some("n".to_string())),
        ModuleInfo { name: "n".to_string(), path: "/p".to_string() }
    );
}

#[test]
fn priorities_are_read_by_name() {
    assert_eq!(parse_priority("Realtime"), Some(PriorityLevel::Realtime));
    assert_eq!(parse_priority("High"), Some(PriorityLevel::High));
    assert_eq!(parse_priority("Above Normal"), Some(PriorityLevel::AboveNormal));
    assert_eq!(parse_priority("Normal"), Some(PriorityLevel::Normal));
    assert_eq!(parse_priority("Below Normal"), Some(PriorityLevel::BelowNormal));
    assert_eq!(parse_priority("Low"), Some(PriorityLevel::Low));
    assert_eq!(parse_priority("low"), None);
    assert_eq!(parse_priority(""), None);
    assert_eq!(parse_priority("AboveNormal"), None);
    assert_eq!(parse_priority("Normal "), None);
}

#[test]
fn priorities_have_their_niceness() {
    assert_eq!(nice_value(PriorityLevel::Realtime), -20);
    assert_eq!(nice_value(PriorityLevel::High), -10);
    assert_eq!(nice_value(PriorityLevel::AboveNormal), -5);
    assert_eq!(nice_value(PriorityLevel::Normal), 0);
    assert_eq!(nice_value(PriorityLevel::BelowNormal), 5);
    assert_eq!(nice_value(PriorityLevel::Low), 19);
}

#[test]
fn tray_entries_have_their_actions() {
    assert_eq!(tray_action("quit"), TrayAction::Quit);
    assert_eq!(tray_action("hide"), TrayAction::Close);
    assert_eq!(
        tray_action("show"),
        TrayAction::Open { view: ViewMode::Process, width: 800, height: 600 }
    );
    assert_eq!(
        tray_action("standard"),
        TrayAction::Open { view: ViewMode::Process, width: 800, height: 600 }
    );
    assert_eq!(
        tray_action("widget"),
        TrayAction::Open { view: ViewMode::Widget, width: 380, height: 540 }
    );
    assert_eq!(tray_action("Quit"), TrayAction::Nothing);
    assert_eq!(tray_action(""), TrayAction::Nothing);
    assert_eq!(view_name(ViewMode::Process), "process");
    assert_eq!(view_name(ViewMode::Widget), "widget");
}
