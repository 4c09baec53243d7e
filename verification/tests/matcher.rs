use std::sync::atomic::AtomicU64;

use searchcore::matcher::{
    conclude, is_app_name, is_overtaken, is_word_start, match_fuzzy, match_name, match_pinyin, Scan,
    SearchOptions,
};
use searchcore::topk::Cand;
use searchcore::{search, Index, VolumeIndex};

fn units(s: &str) -> Vec<u16> {
    s.encode_utf16().collect()
}

fn ntfs(letter: char, files: &[(u64, u64, &str, bool)]) -> VolumeIndex {
    let mut v = VolumeIndex::new(letter, true);
    for &(frn, parent, name, is_dir) in files {
        v.upsert(frn, parent, &units(name), is_dir);
    }
    v
}

fn names(index: &Index, query: &str, opts: &SearchOptions) -> Vec<String> {
    search(index, query, None, opts).items.into_iter().map(|r| r.name).collect()
}

#[test]
fn exact_prefix_word_and_inner_hits() {
    assert_eq!(match_name(&units("Chrome"), &units("chrome")), Some((10_000, 0, 6)));
    assert_eq!(match_name(&units("chrome.exe"), &units("chrome")), Some((7_998, 0, 6)));
    assert_eq!(match_name(&units("my-report.pdf"), &units("report")), Some((5_985, 3, 9)));
    assert_eq!(match_name(&units("xreport"), &units("report")), Some((3_995, 1, 7)));
    assert_eq!(match_name(&units("abc"), &units("abcd")), None);
    assert_eq!(match_name(&units("abc"), &units("abd")), None);
    assert_eq!(match_name(&units("abc"), &units("")), None);
    assert_eq!(match_name(&units(""), &units("a")), None);
}

#[test]
fn the_best_place_wins() {
    assert_eq!(match_name(&units("xab ab"), &units("ab")), Some((6_000 - 16 - 1, 4, 6)));
    assert_eq!(match_name(&units("xabab"), &units("ab")), Some((4_000 - 4 - 1, 1, 3)));
}

#[test]
fn loose_hits_and_abbreviations() {
    assert_eq!(match_fuzzy(&units("chrome"), &units("chm")), Some((2_223, 0, 5)));
    assert_eq!(
        match_fuzzy(&units("Plain Craft Launcher 2.exe"), &units("pcl")),
        Some((7_944, 0, 13))
    );
    assert_eq!(match_fuzzy(&units("chrome"), &units("mc")), None);
    assert_eq!(match_fuzzy(&units("chrome"), &units("c")), None);
}

#[test]
fn pinyin_hits() {
    let weixin = units("weixin");
    assert_eq!(match_pinyin(&weixin, &units("weixin")), Some(6_799));
    assert_eq!(match_pinyin(&weixin, &units("xin")), Some(3_396));
    assert_eq!(match_pinyin(&weixin, &units("wx")), Some(8_419));
    assert_eq!(match_pinyin(&weixin, &units("xn")), Some(1_579));
    assert_eq!(match_pinyin(&units("yuanshen"), &units("ys")), Some(8_378));
    assert_eq!(match_pinyin(&weixin, &units("z")), None);
    assert_eq!(match_pinyin(&weixin, &units("")), None);
}

#[test]
fn application_names_and_words() {
    assert!(is_app_name(&units("QQ.EXE")));
    assert!(is_app_name(&units("a.lnk")));
    assert!(!is_app_name(&units("exe")));
    assert!(!is_app_name(&units("a.exe.txt")));
    assert!(is_word_start(&units("a b"), 0));
    assert!(is_word_start(&units("a b"), 2));
    assert!(!is_word_start(&units("a b"), 1));
}

#[test]
fn options_shift_scores() {
    let index = Index {
        volumes: vec![ntfs(
            'C',
            &[
                (10, 5, "qq", true),
                (11, 5, "qq.exe", false),
                (12, 5, "$qq", false),
                (13, 5, "微信", false),
            ],
        )],
    };
    let opts = SearchOptions::default();
    let out = search(&index, "QQ", None, &opts);
    let found: Vec<(String, i32)> = out.items.iter().map(|r| (r.name.clone(), r.score)).collect();
    assert_eq!(
        found,
        vec![
            ("qq.exe".to_string(), 8_000 - 1 + 450 * 6),
            ("qq".to_string(), 10_000 - 700),
            ("$qq".to_string(), 4_000 - 4 - 3_000),
        ]
    );
    let dollar = search(&index, "$q", None, &opts);
    assert_eq!(dollar.items[0].score, 8_000);
    let mut all = SearchOptions::default();
    all.include_system = true;
    assert_eq!(search(&index, "qq", None, &all).items[2].score, 3_996);
    let cjk = search(&index, "wx", None, &opts);
    assert_eq!(cjk.items[0].score, 8_419 + 400);
    assert_eq!((cjk.items[0].match_start, cjk.items[0].match_len), (0, 0));
}

#[test]
fn weak_hits_on_applications_gain_a_third() {
    let index = Index { volumes: vec![ntfs('C', &[(10, 5, "xabc.exe", false), (11, 5, "a abc.lnk", false)])] };
    let mut opts = SearchOptions::default();
    let out = search(&index, "abc", None, &opts);
    assert_eq!(out.items[0].score, 6_000 - 8 - 2 + 900);
    assert_eq!(out.items[1].score, 4_000 - 4 - 2 + 150);
    opts.app_bonus = -10;
    let out = search(&index, "abc", None, &opts);
    assert_eq!(out.items[1].score, 4_000 - 4 - 2 - 3);
}

#[test]
fn path_entries_are_matched_by_their_file_name() {
    let mut v = VolumeIndex::new('D', false);
    v.push_path_entry("D:\\report\\notes.txt", false);
    v.push_path_entry("D:\\x\\Report.txt", false);
    let index = Index { volumes: vec![v] };
    let out = search(&index, "report", None, &SearchOptions::default());
    assert_eq!(out.items.len(), 1);
    assert_eq!(out.items[0].name, "Report.txt");
    assert_eq!(out.items[0].path, "D:\\x\\Report.txt");
    assert_eq!((out.items[0].match_start, out.items[0].match_len), (0, 6));
}

#[test]
fn empty_query_finds_nothing() {
    let index = Index { volumes: vec![ntfs('C', &[(10, 5, "a", false)])] };
    let out = search(&index, "", None, &SearchOptions::default());
    assert!(out.items.is_empty() && !out.cancelled);
}

#[test]
fn the_best_of_many_pieces_and_volumes_are_shown() {
    let mut big = VolumeIndex::new('C', true);
    for i in 0..40_000u64 {
        let name = match i {
            100 => "needle".to_string(),
            20_000 => "needle one".to_string(),
            39_999 => "a needle".to_string(),
            _ => format!("hay needles {i}"),
        };
        big.upsert(i + 10, 5, &units(&name), false);
    }
    let small = ntfs('D', &[(10, 5, "needle two", false)]);
    let index = Index { volumes: vec![big, small] };
    let mut opts = SearchOptions::default();
    opts.limit = 4;
    let out = search(&index, "needle", None, &opts);
    let got: Vec<(usize, u32)> = out.items.iter().map(|r| (r.volume, r.slot)).collect();
    assert_eq!(got[0], (0, 100));
    let mut middle = vec![got[1], got[2]];
    middle.sort();
    assert_eq!(middle, vec![(0, 20_000), (1, 0)]);
    assert_eq!(got[3], (0, 39_999));
    assert_eq!(out.items[0].score, 10_000);
    opts.limit = 50;
    opts.top_k = 2;
    assert_eq!(search(&index, "needle", None, &opts).items.len(), 3);
    opts.top_k = 0;
    assert_eq!(search(&index, "needle", None, &opts).items.len(), 0);
}

#[test]
fn all_hits_are_shown_where_there_are_few() {
    let index = Index {
        volumes: vec![
            ntfs('C', &[(10, 5, "alpha", false), (11, 5, "beta", false)]),
            ntfs('D', &[(10, 5, "alphabet", false), (11, 5, "gamma", false)]),
        ],
    };
    assert_eq!(names(&index, "alpha", &SearchOptions::default()), vec!["alpha", "alphabet"]);
}

#[test]
fn a_newer_query_cancels() {
    let index = Index { volumes: vec![ntfs('C', &[(10, 5, "alpha", false)])] };
    let generation = AtomicU64::new(7);
    let opts = SearchOptions::default();
    let out = search(&index, "alpha", Some((&generation, 6)), &opts);
    assert!(out.cancelled && out.items.is_empty());
    let out = search(&index, "alpha", Some((&generation, 7)), &opts);
    assert!(!out.cancelled);
    assert_eq!(out.items.len(), 1);
}

#[test]
fn nothing_overtakes_the_last_generation() {
    let index = Index { volumes: vec![ntfs('C', &[(10, 5, "alpha", false)])] };
    let generation = AtomicU64::new(u64::MAX);
    let opts = SearchOptions::default();
    let out = search(&index, "alpha", Some((&generation, u64::MAX)), &opts);
    assert!(!out.cancelled);
    assert_eq!(out.items.len(), 1);
}

#[test]
fn only_a_later_generation_overtakes() {
    assert!(is_overtaken(8, 7));
    assert!(!is_overtaken(7, 7));
    assert!(!is_overtaken(6, 7));
}

#[test]
fn a_scan_that_was_given_up_cancels_the_search() {
    let index = Index {
        volumes: vec![ntfs('C', &[(10, 5, "alpha", false)]), ntfs('D', &[(10, 5, "alpha", false)])],
    };
    let cand = |volume: usize, score: i32| Cand { score, volume, slot: 0, start: 0, end: 5 };
    let scans = |complete: bool| {
        vec![
            Scan { cands: vec![cand(0, 3)], complete: true },
            Scan { cands: if complete { vec![cand(1, 9)] } else { Vec::new() }, complete },
        ]
    };
    let out = conclude(&index, &scans(true), false, 50);
    let got: Vec<(usize, i32, u16)> =
        out.items.iter().map(|r| (r.volume, r.score, r.match_len)).collect();
    assert_eq!(got, vec![(1, 9, 5), (0, 3, 5)]);
    assert!(!out.cancelled);
    let out = conclude(&index, &scans(false), false, 50);
    assert!(out.cancelled && out.items.is_empty());
    let out = conclude(&index, &scans(true), true, 50);
    assert!(out.cancelled && out.items.is_empty());
}

#[test]
fn default_options() {
    let o = SearchOptions::default().clone();
    assert_eq!((o.limit, o.top_k, o.include_system), (50, 120, false));
    assert_eq!((o.dirs_penalty, o.app_bonus, o.cjk_bonus, o.start_menu_bonus), (-700, 450, 400, 1_500));
}

#[test]
fn start_menu_entries_gain() {
    let mut v = ntfs('C', &[(10, 5, "Programs", true), (11, 10, "tool.txt", false)]);
    v.mark_start_menu(&[vec!["Programs".to_string()]]);
    let index = Index { volumes: vec![v] };
    let out = search(&index, "tool", None, &SearchOptions::default());
    assert_eq!(out.items[0].score, 8_000 - 2 + 1_500);
}

#[test]
fn long_queries_are_not_matched_loosely() {
    let index = Index { volumes: vec![ntfs('C', &[(10, 5, "a-b-c-d-e-f-g-h-i", false)])] };
    assert_eq!(names(&index, "abcdefgh", &SearchOptions::default()).len(), 1);
    assert_eq!(names(&index, "abcdefghi", &SearchOptions::default()).len(), 0);
}

#[test]
fn the_case_of_letters_does_not_count() {
    let index = Index {
        volumes: vec![
            ntfs('C', &[(10, 5, "Report.TXT", false), (11, 5, "my report", true)]),
            ntfs('D', &[(10, 5, "rep-ort", false)]),
        ],
    };
    let opts = SearchOptions::default();
    let scores = |q: &str| -> Vec<i32> {
        search(&index, q, None, &opts).items.iter().map(|r| r.score).collect()
    };
    assert_eq!(scores("report").len(), 3);
    assert_eq!(scores("REPort"), scores("report"));
}

#[test]
fn a_full_spelling_outranks_inner_initials() {
    let full = match_pinyin(&units("dawei"), &units("we"));
    let inner = match_pinyin(&units("nawuyezi"), &units("we"));
    assert_eq!((full, inner), (Some(3_397), Some(1_600 - 40 - 2)));
}

#[test]
fn options_that_overflow_are_recognised() {
    let mut opts = SearchOptions::default();
    assert!(opts.are_fitting());
    opts.app_bonus = i32::MAX / 6 + 1;
    assert!(!opts.are_fitting());
    opts = SearchOptions::default();
    opts.start_menu_bonus = i32::MAX;
    assert!(!opts.are_fitting());
    opts = SearchOptions::default();
    opts.dirs_penalty = i32::MIN;
    assert!(!opts.are_fitting());
}
