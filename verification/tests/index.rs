use searchcore::index::{file_name_of, Index, VolumeIndex};
use searchcore::py::pinyin_of;
use searchcore::types::{
    FLAG_IS_CJK, FLAG_IS_DIR, FLAG_IS_PATH, FLAG_IS_SYSTEM, FLAG_START_MENU,
};

fn units(s: &str) -> Vec<u16> {
    s.encode_utf16().collect()
}

fn text(u: &[u16]) -> String {
    String::from_utf16_lossy(u)
}

fn strings(parts: &[&str]) -> Vec<String> {
    parts.iter().map(|p| p.to_string()).collect()
}

#[test]
fn upsert_inserts_and_updates() {
    let mut v = VolumeIndex::new('C', true);
    v.upsert(100, 5, &units("old.txt"), false);
    v.upsert(101, 5, &units("dir"), true);
    assert_eq!(v.len(), 2);
    v.upsert(100, 101, &units("new.txt"), false);
    assert_eq!(v.len(), 2);
    let e = v.entries[0];
    assert_eq!(text(v.name_slice(&e)), "new.txt");
    assert_eq!(e.parent, 101);
    assert!(!e.is_dir());
    assert!(v.entries[1].is_dir());
    assert!(v.is_well_formed());
}

#[test]
fn short_name_does_not_replace_long_name() {
    let mut v = VolumeIndex::new('C', true);
    v.upsert(7, 5, &units("Program Files"), true);
    v.upsert(7, 5, &units("PROGRA~1"), true);
    assert_eq!(text(v.name_slice(&v.entries[0])), "Program Files");
    v.upsert(8, 5, &units("LONGNA~1.TXT"), false);
    v.upsert(8, 5, &units("long name.txt"), false);
    assert_eq!(text(v.name_slice(&v.entries[1])), "long name.txt");
    v.upsert(9, 5, &units("A~1"), false);
    v.upsert(9, 5, &units("B~1"), false);
    assert_eq!(text(v.name_slice(&v.entries[2])), "B~1");
}

#[test]
fn flags_of_entries() {
    let mut v = VolumeIndex::new('C', true);
    v.upsert(10, 5, &units("$MFT"), false);
    v.upsert(11, 5, &units("微信"), true);
    assert_eq!(v.entries[0].flags, FLAG_IS_SYSTEM);
    assert_eq!(v.entries[1].flags, FLAG_IS_DIR | FLAG_IS_CJK);
    assert_eq!(text(v.py_slice(&v.entries[1])), "weixin");
    let mut w = VolumeIndex::new('D', false);
    w.push_path_entry("D:\\音乐\\歌.mp3", false);
    assert_eq!(w.entries[0].flags, FLAG_IS_PATH | FLAG_IS_CJK);
    assert_eq!(text(w.py_slice(&w.entries[0])), "ge.mp3");
    assert_eq!(w.frns, vec![0]);
}

#[test]
fn file_name_is_what_follows_the_last_separator() {
    assert_eq!(text(file_name_of(&units("D:\\a\\b.txt"))), "b.txt");
    assert_eq!(text(file_name_of(&units("plain"))), "plain");
    assert_eq!(text(file_name_of(&units("D:\\"))), "");
}

#[test]
fn removal_moves_the_last_entry() {
    let mut v = VolumeIndex::new('C', true);
    for i in 0..8u64 {
        v.upsert(100 + i, 5, &units(&format!("file{i}")), false);
    }
    assert!(v.remove(101));
    assert!(!v.remove(101));
    assert_eq!(v.len(), 7);
    assert_eq!(v.frns[1], 107);
    assert_eq!(text(v.name_slice(&v.entries[1])), "file7");
    assert_eq!(v.path_for_slot(1), "C:\\file7");
    assert_eq!(v.deleted, 1);
    assert!(v.is_well_formed());
}

#[test]
fn removals_of_a_quarter_pack_the_pools() {
    let mut v = VolumeIndex::new('C', true);
    for i in 0..8u64 {
        v.upsert(100 + i, 5, &units("abcd"), false);
    }
    v.remove(100);
    assert_eq!((v.deleted, v.names.len()), (1, 32));
    v.remove(101);
    assert_eq!((v.deleted, v.names.len()), (0, 24));
    assert_eq!(v.len(), 6);
    assert!(v.is_well_formed());
}

#[test]
fn compaction_keeps_every_entry() {
    let mut v = VolumeIndex::new('C', true);
    v.upsert(1, 5, &units("一.txt"), false);
    v.upsert(2, 5, &units("two"), true);
    v.upsert(1, 2, &units("三.txt"), false);
    assert_eq!(v.names.len(), 5 + 3 + 5);
    v.compact();
    assert_eq!(v.names.len(), 5 + 3);
    assert_eq!(text(v.name_slice(&v.entries[0])), "三.txt");
    assert_eq!(text(v.py_slice(&v.entries[0])), "san.txt");
    assert_eq!(v.path_for_slot(0), "C:\\two\\三.txt");
}

#[test]
fn paths_follow_the_parents() {
    let mut v = VolumeIndex::new('E', true);
    v.upsert(20, 5, &units("a"), true);
    v.upsert(21, 20, &units("b"), true);
    v.upsert(22, 21, &units("c.txt"), false);
    v.upsert(23, 999, &units("orphan"), false);
    assert_eq!(v.path_for_slot(2), "E:\\a\\b\\c.txt");
    assert_eq!(v.path_for_slot(3), "E:\\orphan");
    assert_eq!(v.path_for_slot(40), "E:\\");
    v.upsert(24, 24, &units("x"), true);
    assert_eq!(v.path_for_slot(4).len(), 2 + 128 * 2);
}

#[test]
fn start_menu_is_marked_and_inherited() {
    let mut v = VolumeIndex::new('C', true);
    v.upsert(30, 5, &units("ProgramData"), true);
    v.upsert(31, 30, &units("Programs"), true);
    v.upsert(33, 32, &units("deep.lnk"), false);
    v.upsert(32, 31, &units("Tools"), true);
    v.upsert(34, 5, &units("elsewhere"), false);
    v.mark_start_menu(&[strings(&["programdata", "PROGRAMS"]), strings(&["missing"])]);
    let flagged: Vec<bool> = v.entries.iter().map(|e| e.is_start_menu()).collect();
    assert_eq!(flagged, vec![false, false, true, true, false]);
    assert!(v.start_menu_frns.contains(&31));
    assert!(v.start_menu_frns.contains(&32));
    assert!(v.start_menu_frns.contains(&33));
    assert_eq!(v.start_menu_frns.len(), 3);
    v.upsert(35, 32, &units("new.lnk"), false);
    assert_eq!(v.entries[5].flags, FLAG_START_MENU);
    assert!(v.is_well_formed());
}

#[test]
fn nothing_is_marked_without_a_start_menu() {
    let mut v = VolumeIndex::new('C', true);
    v.upsert(30, 5, &units("a"), true);
    v.mark_start_menu(&[strings(&["b"])]);
    assert!(v.start_menu_frns.is_empty());
    assert_eq!(v.entries[0].flags, FLAG_IS_DIR);
}

#[test]
fn damaged_indexes_are_recognised() {
    let mut v = VolumeIndex::new('C', true);
    v.upsert(30, 5, &units("a"), true);
    v.upsert(31, 5, &units("b"), true);
    assert!(v.is_well_formed() && v.is_searchable());
    v.frn_map.insert(77, 0);
    assert!(!v.is_well_formed());
    v.frn_map.remove(&77);
    assert!(v.is_well_formed());
    v.frns[1] = 30;
    assert!(!v.is_well_formed());
    assert!(v.is_searchable());
    v.entries[0].name_len = 9;
    assert!(!v.is_searchable());
}

#[test]
fn entries_are_counted_over_volumes() {
    let mut index = Index::default();
    assert_eq!(index.total_entries(), 0);
    let mut v = VolumeIndex::new('C', true);
    v.upsert(30, 5, &units("a"), true);
    index.volumes.push(v);
    let mut w = VolumeIndex::new('D', false);
    w.push_path_entry("D:\\x", false);
    w.push_path_entry("D:\\y", true);
    index.volumes.push(w);
    assert_eq!(index.total_entries(), 3);
}

#[test]
fn flags_and_spellings_go_together_whatever_came_before() {
    let mut v = VolumeIndex::new('C', true);
    v.upsert(10, 5, &units("微信"), true);
    v.upsert(11, 10, &units("plain"), false);
    v.upsert(12, 10, &units("报告.txt"), false);
    v.push_path_entry("C:\\微信\\plain.txt", false);
    v.upsert(12, 10, &units("report.txt"), false);
    v.upsert(11, 10, &units("启动"), false);
    assert!(v.remove(10));
    v.mark_start_menu(&[vec!["none".to_string()]]);
    v.compact();
    assert!(v.is_well_formed());
    let mut spelled = 0;
    for e in &v.entries {
        let name = file_name_of(v.name_slice(e));
        assert_eq!(e.is_cjk(), e.has_py());
        assert_eq!(e.is_cjk(), pinyin_of(name).is_some());
        assert!(e.py_off as usize + e.py_len as usize <= v.pys.len());
        spelled += e.has_py() as usize;
    }
    assert_eq!((v.len(), spelled), (3, 1));
}
