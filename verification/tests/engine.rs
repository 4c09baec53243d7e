use searchcore::engine::{
    degraded_roots, filter_volume_excluded, find_volume, has_mft, is_excluded_prefix,
    mark_all_start_menu, ntfs_letters, replace_volume, start_menu_paths, take_found, walk_letters,
    walk_roots, JournalLoop, LoopStep,
};
use searchcore::usn::{UsnError, UsnUpdate, REASON_FILE_CREATE};
use searchcore::{EngineStats, Index, VolumeIndex};

fn units(s: &str) -> Vec<u16> {
    s.encode_utf16().collect()
}

fn strings(parts: &[&str]) -> Vec<String> {
    parts.iter().map(|p| p.to_string()).collect()
}

fn volume(letter: char, is_ntfs: bool) -> VolumeIndex {
    VolumeIndex::new(letter, is_ntfs)
}

fn letters(index: &Index) -> Vec<(char, bool)> {
    index.volumes.iter().map(|v| (v.letter, v.is_ntfs)).collect()
}

#[test]
fn start_menu_of_all_users_and_of_the_user() {
    let common = strings(&["ProgramData", "Microsoft", "Windows", "Start Menu", "Programs"]);
    assert_eq!(start_menu_paths(None), vec![common.clone()]);
    assert_eq!(start_menu_paths(Some("C:\\")), vec![common.clone()]);
    assert_eq!(
        start_menu_paths(Some("C:\\Users\\\\ann")),
        vec![
            common,
            strings(&[
                "Users", "ann", "AppData", "Roaming", "Microsoft", "Windows", "Start Menu", "Programs"
            ])
        ]
    );
}

#[test]
fn start_menus_are_marked_on_ntfs_volumes_only() {
    let mut index = Index::new();
    for is_ntfs in [true, false] {
        let mut v = volume('C', is_ntfs);
        v.upsert(10, 5, &units("menu"), true);
        v.upsert(11, 10, &units("x.lnk"), false);
        index.volumes.push(v);
    }
    mark_all_start_menu(&mut index, &[strings(&["menu"])]);
    assert!(index.volumes[0].entries[1].is_start_menu());
    assert!(!index.volumes[1].entries[1].is_start_menu());
}

#[test]
fn volumes_are_replaced_by_letter() {
    let mut index = Index {
        volumes: vec![volume('C', true), volume('D', false), volume('C', false), volume('E', true)],
    };
    assert!(has_mft(&index, 'C') && !has_mft(&index, 'D'));
    assert_eq!(find_volume(&index, 'D'), Some(1));
    assert_eq!(find_volume(&index, 'X'), None);
    assert_eq!(ntfs_letters(&index), vec!['C', 'E']);
    replace_volume(&mut index, volume('C', true), true);
    assert_eq!(letters(&index), vec![('C', true), ('D', false), ('E', true), ('C', true)]);
    replace_volume(&mut index, volume('C', true), false);
    assert_eq!(letters(&index), vec![('D', false), ('E', true), ('C', true)]);
}

#[test]
fn excluded_directories_match_whole_names() {
    let dirs = strings(&["c:\\temp", "d:\\a\\b"]);
    assert!(is_excluded_prefix("C:\\Temp", &dirs));
    assert!(is_excluded_prefix("c:/TEMP/x.txt", &dirs));
    assert!(!is_excluded_prefix("C:\\Temporary", &dirs));
    assert!(is_excluded_prefix("D:\\A\\B\\c", &dirs));
    assert!(!is_excluded_prefix("D:\\a", &dirs));
    assert!(!is_excluded_prefix("C:\\Temp", &[]));
}

#[test]
fn excluded_entries_are_taken_out() {
    let mut v = volume('C', true);
    v.upsert(10, 5, &units("Temp"), true);
    v.upsert(11, 10, &units("a.txt"), false);
    v.upsert(12, 5, &units("Keep"), true);
    v.upsert(13, 12, &units("b.txt"), false);
    v.upsert(14, 5, &units("Temporary"), true);
    filter_volume_excluded(&mut v, &strings(&["c:\\temp"]));
    let mut left: Vec<String> = (0..v.len() as u32).map(|s| v.path_for_slot(s)).collect();
    left.sort();
    assert_eq!(left, vec!["C:\\Keep", "C:\\Keep\\b.txt", "C:\\Temporary"]);
    assert!(v.is_well_formed());
}

#[test]
fn found_paths_are_taken_unless_excluded() {
    let dirs = strings(&["d:\\temp"]);
    let mut v = volume('D', false);
    for (path, is_dir) in
        [("D:\\Temp", true), ("D:/TEMP/a.txt", false), ("D:\\Temporary", true), ("D:\\b.txt", false)]
    {
        take_found(&mut v, path, is_dir, &dirs);
    }
    assert_eq!(v.len(), 2);
    assert_eq!(String::from_utf16_lossy(v.name_slice(&v.entries[0])), "D:\\Temporary");
    assert!(v.entries[0].is_path_entry() && v.entries[0].is_dir());
    assert_eq!(String::from_utf16_lossy(v.name_slice(&v.entries[1])), "D:\\b.txt");
    take_found(&mut v, "D:\\Temp", true, &[]);
    assert_eq!(v.len(), 3);
}

#[test]
fn drives_and_roots_to_be_walked() {
    let present = ['A', 'C', 'D', 'E', 'F'];
    assert_eq!(walk_letters(&present, &['C'], &['E'], true, &['C', 'D', 'E']), vec!['D']);
    assert_eq!(walk_letters(&present, &[], &['E'], false, &[]), vec!['A', 'C', 'D', 'F']);
    let home = degraded_roots("C:\\Users\\ann");
    assert_eq!(home.len(), 6);
    assert_eq!(home[0], "C:\\Users\\ann\\Desktop");
    assert_eq!(home[5], "C:\\Users\\ann\\Music");
    let mixed = strings(&["C:\\x", "D:\\y", ""]);
    assert_eq!(walk_roots('C', false, &mixed), vec!["C:\\x"]);
    assert!(walk_roots('C', true, &mixed).is_empty());
    assert_eq!(walk_roots('D', true, &mixed), vec!["D:\\"]);
}

#[test]
fn statistics() {
    let mut v = volume('C', true);
    v.upsert(10, 5, &units("a"), false);
    let index = Index { volumes: vec![v, volume('D', false)] };
    let st = EngineStats::collect(&index, true, 12, true, vec!['C']).clone();
    assert_eq!(st.entries, 1);
    assert_eq!(st.volumes, vec![('C', true, 1), ('D', false, 0)]);
    assert_eq!((st.from_snapshot, st.startup_ms, st.is_admin), (true, 12, true));
    assert_eq!(st.usn_live, vec!['C']);
}

fn created(frn: u64, name: &str) -> UsnUpdate {
    UsnUpdate { frn, parent: 5, usn: 0, reason: REASON_FILE_CREATE, is_dir: false, name: units(name) }
}

const MINUTE: u128 = 60_000_000_000;

#[test]
fn the_journal_loop_applies_and_saves() {
    let mut index = Index { volumes: vec![volume('C', true)] };
    let mut l = JournalLoop { letter: 'C', journal_id: 1, cursor: 10, dirty: false };
    assert_eq!(l.on_records(&mut index, &[], 11, MINUTE + 1), (LoopStep::Read, 0));
    assert_eq!((l.cursor, l.dirty), (11, false));
    assert_eq!(l.on_records(&mut index, &[created(7, "a")], 12, MINUTE), (LoopStep::Read, 1));
    assert_eq!((l.cursor, l.dirty), (12, true));
    assert_eq!((index.volumes[0].len(), index.volumes[0].next_usn), (1, 12));
    assert_eq!(l.on_error(&UsnError::Timeout, MINUTE), LoopStep::Read);
    assert_eq!(l.on_error(&UsnError::Timeout, MINUTE + 1), LoopStep::Save);
    assert!(!l.dirty);
    assert_eq!(l.on_records(&mut index, &[created(8, "b")], 13, MINUTE + 1), (LoopStep::Save, 1));
    assert!(!l.dirty);
}

#[test]
fn the_journal_loop_stops_waits_and_rebuilds() {
    let mut index = Index { volumes: vec![volume('C', true)] };
    let mut gone = JournalLoop { letter: 'X', journal_id: 1, cursor: 10, dirty: true };
    assert_eq!(gone.on_records(&mut index, &[created(7, "a")], 12, 0), (LoopStep::Stop, 0));
    assert_eq!((gone.cursor, gone.dirty), (10, true));
    let mut l = JournalLoop { letter: 'C', journal_id: 1, cursor: 10, dirty: true };
    assert_eq!(l.on_error(&UsnError::Io("x".to_string()), MINUTE + 1), LoopStep::Wait);
    assert_eq!(l.on_error(&UsnError::JournalDeleted, MINUTE + 1), LoopStep::Rebuild);
    assert_eq!(l.on_rebuilt(&mut index, None), LoopStep::Stop);
    let mut v = volume('C', true);
    v.journal_id = 9;
    v.next_usn = 99;
    v.upsert(10, 5, &units("a"), false);
    assert_eq!(l.on_rebuilt(&mut index, Some(v)), LoopStep::Read);
    assert_eq!((l.journal_id, l.cursor, l.dirty), (9, 99, true));
    assert_eq!((index.volumes.len(), index.volumes[0].len()), (1, 1));
}
