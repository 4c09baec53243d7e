use searchcore::snapshot::{encode, parse_snapshot, seal};
use searchcore::usn::{
    apply_updates, is_readable, map_journal_err, parse_journal, UsnError, UsnUpdate,
    REASON_FILE_CREATE, REASON_FILE_DELETE, REASON_RENAME_NEW, REASON_RENAME_OLD,
};
use searchcore::{search, Index, SearchOptions, VolumeIndex};

fn units(s: &str) -> Vec<u16> {
    s.encode_utf16().collect()
}

fn update(frn: u64, parent: u64, reason: u32, name: &str, is_dir: bool) -> UsnUpdate {
    UsnUpdate { frn, parent, usn: 0, reason, is_dir, name: units(name) }
}

fn found(index: &Index, query: &str) -> Vec<String> {
    search(index, query, None, &SearchOptions::default()).items.into_iter().map(|r| r.path).collect()
}

fn two_files() -> VolumeIndex {
    let mut v = VolumeIndex::new('Z', true);
    let n = apply_updates(
        &mut v,
        &[
            update(0x1001, 5, REASON_FILE_CREATE, "hello.txt", false),
            update(0x1002, 5, REASON_FILE_CREATE, "world.pdf", false),
        ],
    );
    assert_eq!(n, 2);
    v
}

#[test]
fn cycle_test() {
    let mut v = two_files();
    assert_eq!(v.len(), 2);
    apply_updates(
        &mut v,
        &[
            update(0x1001, 5, REASON_RENAME_OLD, "hello.txt", false),
            update(0x1001, 5, REASON_RENAME_NEW, "goodbye.txt", false),
        ],
    );
    assert_eq!(v.len(), 2);
    let index = Index { volumes: vec![v] };
    let hit = search(&index, "goodbye", None, &SearchOptions::default());
    assert_eq!(hit.items.len(), 1);
    assert!(hit.items[0].path.ends_with("goodbye.txt"));

    let mut v = two_files();
    apply_updates(&mut v, &[update(0x1002, 5, REASON_FILE_DELETE, "world.pdf", false)]);
    assert_eq!(v.len(), 1);
    let index = Index { volumes: vec![v] };
    assert!(found(&index, "world").is_empty());
    assert_eq!(found(&index, "hello").len(), 1);

    let Ok(back) = parse_snapshot(&seal(encode(&index))) else { panic!("refused") };
    assert_eq!(back.total_entries(), 1);
    assert_eq!(found(&back, "hello"), vec!["Z:\\hello.txt"]);
}

#[test]
fn other_records_change_nothing() {
    let mut v = two_files();
    let n = apply_updates(
        &mut v,
        &[
            update(0x1001, 5, 0x8000_0002, "hello.txt", false),
            update(0, 5, REASON_FILE_CREATE, "zero", false),
            update(0x1003, 5, REASON_FILE_CREATE, "", false),
            update(0x1009, 5, REASON_FILE_DELETE, "unknown", false),
        ],
    );
    assert_eq!(n, 0);
    assert_eq!(v.len(), 2);
    assert!(v.is_well_formed());
}

#[test]
fn a_record_can_remove_and_insert() {
    let mut v = two_files();
    let n = apply_updates(
        &mut v,
        &[update(0x1001, 5, REASON_FILE_DELETE | REASON_FILE_CREATE, "again.txt", true)],
    );
    assert_eq!(n, 2);
    assert_eq!(v.len(), 2);
    assert_eq!(found(&Index { volumes: vec![v] }, "again"), vec!["Z:\\again.txt"]);
}

#[test]
fn batches_add_up() {
    let records = [
        update(1, 5, REASON_FILE_CREATE, "a", true),
        update(2, 1, REASON_FILE_CREATE, "b", false),
        update(2, 1, REASON_RENAME_OLD, "b", false),
        update(2, 1, REASON_RENAME_NEW, "c", false),
    ];
    let mut one = VolumeIndex::new('C', true);
    let n = apply_updates(&mut one, &records);
    let mut two = VolumeIndex::new('C', true);
    let a = apply_updates(&mut two, &records[..2]);
    let b = apply_updates(&mut two, &records[2..]);
    assert_eq!(n, a + b);
    assert_eq!((&one.names, &one.entries, &one.frns), (&two.names, &two.entries, &two.frns));
}

#[test]
fn journal_errors() {
    assert!(matches!(map_journal_err("x", 1178), UsnError::JournalDeleted));
    assert!(matches!(map_journal_err("x", 1179), UsnError::JournalDeleted));
    assert!(matches!(map_journal_err("x", 1460), UsnError::Timeout));
    match map_journal_err("读取 USN 日志失败", 50) {
        UsnError::Io(m) => assert_eq!(m, "读取 USN 日志失败: win32 50"),
        _ => panic!("other error"),
    }
}

fn record(major: u16, frn: u64, parent: u64, usn: i64, reason: u32, attrs: u32, name: &str) -> Vec<u8> {
    let name: Vec<u8> = units(name).iter().flat_map(|u| u.to_le_bytes()).collect();
    let fixed = if major == 3 { 76 } else { 60 };
    let mut r = vec![0u8; fixed];
    r[4..6].copy_from_slice(&major.to_le_bytes());
    let (frn_at, parent_at, usn_at, reason_at, attrs_at) =
        if major == 3 { (8, 24, 40, 56, 68) } else { (8, 16, 24, 40, 52) };
    r[frn_at..frn_at + 8].copy_from_slice(&frn.to_le_bytes());
    r[parent_at..parent_at + 8].copy_from_slice(&parent.to_le_bytes());
    r[usn_at..usn_at + 8].copy_from_slice(&usn.to_le_bytes());
    r[reason_at..reason_at + 4].copy_from_slice(&reason.to_le_bytes());
    r[attrs_at..attrs_at + 4].copy_from_slice(&attrs.to_le_bytes());
    r[fixed - 4..fixed - 2].copy_from_slice(&(name.len() as u16).to_le_bytes());
    r[fixed - 2..fixed].copy_from_slice(&(fixed as u16).to_le_bytes());
    r.extend_from_slice(&name);
    let len = r.len() as u32;
    r[0..4].copy_from_slice(&len.to_le_bytes());
    while r.len() % 8 != 0 {
        r.push(0);
    }
    r
}

#[test]
fn records_of_both_versions_are_read() {
    let mut buf = (-7i64).to_le_bytes().to_vec();
    buf.extend(record(2, 11, 5, 100, REASON_FILE_CREATE, 0x10, "dir"));
    buf.extend(record(3, 12, 11, -4, REASON_FILE_DELETE, 0x20, "file.txt"));
    buf.extend(record(2, 13, 5, 1, 1, 0, ""));
    let n = buf.len();
    buf.resize(n + 100, 0xEE);
    assert!(is_readable(&buf, n));
    let (records, next) = parse_journal(&buf, n, 55);
    assert_eq!(next, -7);
    assert_eq!(records.len(), 2);
    assert_eq!((records[0].frn, records[0].parent, records[0].usn), (11, 5, 100));
    assert_eq!((records[0].reason, records[0].is_dir), (REASON_FILE_CREATE, true));
    assert_eq!(records[0].name, units("dir"));
    assert_eq!((records[1].frn, records[1].parent, records[1].usn), (12, 11, -4));
    assert_eq!((records[1].reason, records[1].is_dir), (REASON_FILE_DELETE, false));
    assert_eq!(records[1].name, units("file.txt"));
}

#[test]
fn a_cut_record_ends_the_batch() {
    let mut buf = 9i64.to_le_bytes().to_vec();
    buf.extend(record(2, 11, 5, 1, REASON_FILE_CREATE, 0, "whole"));
    buf.extend(record(2, 12, 5, 1, REASON_FILE_CREATE, 0, "cut"));
    let n = buf.len() - 8;
    let (records, next) = parse_journal(&buf, n, 0);
    assert_eq!((records.len(), next), (1, 9));
}

#[test]
fn an_empty_batch_keeps_the_position() {
    let (records, next) = parse_journal(&[1; 32], 8, 55);
    assert_eq!((records.len(), next), (0, 55));
}

#[test]
fn fields_outside_the_buffer_are_recognised() {
    let mut buf = vec![0u8; 40];
    buf[8] = 32;
    assert!(!is_readable(&buf, 40));
    buf.resize(68, 0);
    assert!(is_readable(&buf, 40));
}
