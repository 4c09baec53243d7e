use searchcore::commands::{
    apply_usage_boost, bgra_to_rgba, icon_probe, icon_request, normalize_excluded,
    parse_usage, present, settings_payload, usage_text, visible_results, CachedIcon, IconCache,
    IndexReadyPayload, ResultDto, SettingsDto, UsageTable,
};
use searchcore::settings::{
    apps_use_light_theme, autostart_enabled, hotkey_plan, is_excluded, plan_change, windows_theme,
    AppSettings,
};
use searchcore::{EngineStats, SearchResult};

fn strings(parts: &[&str]) -> Vec<String> {
    parts.iter().map(|p| p.to_string()).collect()
}

#[test]
fn defaults() {
    let s = AppSettings::default();
    assert!(!s.autostart && s.double_ctrl);
    assert_eq!((s.hotkey_mode.as_str(), s.custom_hotkey.as_str()), ("double_ctrl", "alt+space"));
    assert_eq!(s.theme, "auto");
    assert!(s.disabled_volumes.is_empty() && s.excluded_dirs.is_empty());
}

#[test]
fn registry_values() {
    assert!(autostart_enabled(Some("C:\\x.exe")));
    assert!(!autostart_enabled(Some("")));
    assert!(!autostart_enabled(None));
    assert_eq!(apps_use_light_theme(Some(1)), Some(true));
    assert_eq!(apps_use_light_theme(Some(2)), Some(false));
    assert_eq!(apps_use_light_theme(None), None);
    assert_eq!(windows_theme(Some(false)), "dark");
    assert_eq!(windows_theme(Some(true)), "light");
    assert_eq!(windows_theme(None), "light");
}

#[test]
fn excluded_paths() {
    let dirs = strings(&["C:/Temp"]);
    assert!(is_excluded("c:\\TEMP\\x", &dirs));
    assert!(is_excluded("c:/temporary", &dirs));
    assert!(!is_excluded("d:/temp", &dirs));
    assert!(!is_excluded("c:/temp", &[]));
}

#[test]
fn directories_are_normalised() {
    let dirs = normalize_excluded(&strings(&["C:/Temp/", "\\\\", "D:\\A\\\\", ""]));
    assert_eq!(dirs, vec!["c:\\temp", "d:\\a"]);
    assert_eq!(normalize_excluded(&dirs), dirs);
}

#[test]
fn hotkey_modes() {
    let mut s = AppSettings::default();
    let p = hotkey_plan(&s);
    assert_eq!((p.double_ctrl, p.custom, p.custom_text.as_str()), (true, false, ""));
    s.hotkey_mode = "alt_space".to_string();
    let p = hotkey_plan(&s);
    assert_eq!((p.double_ctrl, p.custom, p.custom_text.as_str()), (false, true, "alt+space"));
    s.hotkey_mode = "custom".to_string();
    s.custom_hotkey = " ctrl+l\u{3000}".to_string();
    let p = hotkey_plan(&s);
    assert_eq!((p.double_ctrl, p.custom, p.custom_text.as_str()), (false, true, "ctrl+l"));
    s.hotkey_mode = "double_ctrl".to_string();
    s.double_ctrl = false;
    assert!(!hotkey_plan(&s).double_ctrl);
}

#[test]
fn changes_of_settings() {
    let current = AppSettings::default();
    let mut wanted = current.clone();
    let plan = plan_change(&wanted, &current);
    assert!(!plan.rebuild && !plan.autostart_changes);
    wanted.autostart = true;
    wanted.disabled_volumes = vec!['d', 'E'];
    wanted.excluded_dirs = strings(&["C:/Temp/"]);
    let plan = plan_change(&wanted, &current);
    assert!(plan.rebuild && plan.autostart_changes);
    assert_eq!(plan.settings.disabled_volumes, vec!['D', 'E']);
    assert_eq!(plan.settings.excluded_dirs, vec!["C:/Temp/"]);
    assert_eq!(plan.excluded, vec!["c:\\temp"]);
    let mut same = plan.settings.clone();
    same.excluded_dirs = strings(&["c:\\temp"]);
    assert!(!plan_change(&same, &plan.settings).rebuild);
}

fn stats() -> EngineStats {
    EngineStats {
        entries: 7,
        volumes: vec![('C', true, 5), ('D', false, 2)],
        from_snapshot: true,
        startup_ms: 40,
        is_admin: false,
        usn_live: vec!['C'],
    }
}

#[test]
fn payloads() {
    let mut s = AppSettings::default();
    s.disabled_volumes = vec!['D'];
    let p = settings_payload(s, &stats(), true);
    assert!(p.autostart_registered);
    assert_eq!(p.settings.theme, "auto");
    let shown: Vec<(char, bool, usize, bool)> =
        p.volumes.iter().map(|v| (v.letter, v.is_ntfs, v.entries, v.enabled)).collect();
    assert_eq!(shown, vec![('C', true, 5, true), ('D', false, 2, false)]);
    let back: AppSettings = SettingsDto::into_settings(p.settings);
    assert_eq!(back.disabled_volumes, vec!['D']);
    let r = IndexReadyPayload::from_stats(&stats());
    assert_eq!((r.entries, r.startup_ms, r.from_snapshot, r.is_admin), (7, 40, true, false));
    assert_eq!(r.usn_live, vec!['C']);
}

fn dto(path: &str, score: i32) -> ResultDto {
    ResultDto {
        name: path.to_string(),
        path: path.to_string(),
        is_dir: false,
        score,
        match_start: 0,
        match_len: 1,
    }
}

fn scores(items: &[ResultDto]) -> Vec<(&str, i32)> {
    items.iter().map(|r| (r.path.as_str(), r.score)).collect()
}

#[test]
fn uses_are_counted() {
    let mut u = UsageTable::new();
    assert!(u.is_empty());
    u.set("b", 9);
    u.record_use("a");
    u.record_use("a");
    u.record_use("b");
    assert_eq!((u.get("a"), u.get("b"), u.get("c")), (Some(2), Some(10), None));
    assert_eq!(u.entries.len(), 2);
}

#[test]
fn stored_counts_are_read() {
    let u = parse_usage(r#"{ "C:\\a \"b\".exe": 3, "\u4e2d": 4294967295, "x": 0 }"#);
    assert_eq!(u.entries.len(), 3);
    assert_eq!((u.get("C:\\a \"b\".exe"), u.get("中"), u.get("x")), (Some(3), Some(u32::MAX), Some(0)));
    assert_eq!(parse_usage(r#"{"a":1,"b":2,"a":5}"#).get("a"), Some(5));
    assert!(parse_usage("{}").is_empty());
}

#[test]
fn what_holds_no_counts_gives_the_empty_table() {
    for s in ["", "x", "[1]", "null", r#"{"a":-1}"#, r#"{"a":1.5}"#, r#"{"a":4294967296}"#, r#"{"a":1}x"#] {
        assert!(parse_usage(s).is_empty(), "{s}");
    }
}

#[test]
fn a_stored_table_is_read_back() {
    let mut u = UsageTable::new();
    u.set("C:\\微信\t\"1\".lnk", 7);
    u.record_use("D:\\a");
    let text = usage_text(&u).unwrap();
    let back = parse_usage(&text);
    assert_eq!(back.entries.len(), 2);
    assert_eq!((back.get("C:\\微信\t\"1\".lnk"), back.get("D:\\a")), (Some(7), Some(1)));
    assert_eq!(usage_text(&UsageTable::new()).as_deref(), Some("{}"));
}

#[test]
fn of_repeated_counts_the_last_one_counts() {
    let u = UsageTable::from_counts(&[("a".to_string(), 1), ("b".to_string(), 2), ("a".to_string(), 3)]);
    assert_eq!((u.get("a"), u.get("b"), u.get("c")), (Some(3), Some(2), None));
    assert_eq!(u.entries.len(), 2);
}

#[test]
fn use_lifts_results() {
    let mut u = UsageTable::new();
    let items = || vec![dto("a", 100), dto("b", 900), dto("c", 700)];
    assert_eq!(scores(&apply_usage_boost(items(), &u)), vec![("a", 100), ("b", 900), ("c", 700)]);
    u.set("a", 5);
    u.set("c", 1_000_000_000);
    assert_eq!(scores(&apply_usage_boost(items(), &u)), vec![("c", 2_200), ("a", 1_350), ("b", 900)]);
}

fn result(path: &str, score: i32) -> SearchResult {
    SearchResult {
        volume: 0,
        slot: 3,
        score,
        name: "n".to_string(),
        path: path.to_string(),
        is_dir: true,
        match_start: 2,
        match_len: 4,
    }
}

#[test]
fn excluded_results_are_not_shown() {
    let items = [result("C:\\Temp\\a", 9), result("C:\\b", 8)];
    let shown = visible_results(&items, &strings(&["c:\\temp"]));
    assert_eq!(scores(&shown), vec![("C:\\b", 8)]);
    assert_eq!((shown[0].name.as_str(), shown[0].is_dir), ("n", true));
    assert_eq!((shown[0].match_start, shown[0].match_len), (2, 4));
    let mut u = UsageTable::new();
    u.set("C:\\b", 1);
    assert_eq!(scores(&present(&items, &[], &u)), vec![("C:\\b", 258), ("C:\\Temp\\a", 9)]);
}

#[test]
fn icons_are_kept_by_path_or_kind() {
    let r = icon_request(".exe", "C:\\A.EXE");
    assert!(r.own_icon);
    assert_eq!(r.cache_key, "p:c:\\a.exe");
    let r = icon_request(".pdf", "C:\\A.pdf");
    assert!(!r.own_icon);
    assert_eq!(r.cache_key, ".pdf");
    let p = icon_probe("dir");
    assert_eq!((p.path.as_str(), p.attributes), ("C:\\Program Files\\launcher-fake-dir", 0x10));
    let p = icon_probe(".PDF");
    assert_eq!((p.path.as_str(), p.attributes), ("C:\\fake\\file.pdf", 0x80));
}

#[test]
fn icons_are_looked_for_once() {
    let mut c = IconCache::new();
    assert!(c.lookup("dir").is_none());
    let icon = CachedIcon { w: 1, h: 1, rgba: vec![1, 2, 3, 4] };
    assert!(c.store("dir", Some(icon)).is_ok());
    assert_eq!(c.store(".x", None).err(), Some("无图标"));
    match c.lookup("dir") {
        Some(Ok(i)) => assert_eq!((i.w, i.h, i.rgba), (1, 1, vec![1, 2, 3, 4])),
        _ => panic!("not kept"),
    }
    assert!(matches!(c.lookup(".x"), Some(Err("无图标"))));
}

#[test]
fn a_full_cache_is_emptied() {
    let mut c = IconCache::new();
    for i in 0..2048 {
        let _ = c.store(&format!("k{i}"), None);
    }
    assert!(c.lookup("k0").is_some());
    let _ = c.store("one more", None);
    assert!(c.lookup("k0").is_none());
    assert_eq!(c.entries.len(), 0);
}

#[test]
fn pixels_change_their_order() {
    assert_eq!(bgra_to_rgba(vec![1, 2, 3, 9, 4, 5, 6, 0]), vec![3, 2, 1, 9, 6, 5, 4, 0]);
    assert_eq!(bgra_to_rgba(vec![1, 2, 3, 0]), vec![3, 2, 1, 255]);
    assert_eq!(bgra_to_rgba(vec![1, 2, 3, 0, 7, 8]), vec![3, 2, 1, 255, 7, 8]);
    assert_eq!(bgra_to_rgba(Vec::new()), Vec::<u8>::new());
}
