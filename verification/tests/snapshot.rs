use searchcore::snapshot::{encode, fnv1a, parse_snapshot, seal, SnapshotError};
use searchcore::{search, Index, SearchOptions, VolumeIndex};

fn units(s: &str) -> Vec<u16> {
    s.encode_utf16().collect()
}

fn sample() -> Index {
    let mut v = VolumeIndex::new('Z', true);
    v.journal_id = 0x1122_3344_5566_7788;
    v.next_usn = -2;
    v.upsert(0x1001, 5, &units("hello.txt"), false);
    v.upsert(0x1002, 0x1001, &units("微信"), true);
    let mut w = VolumeIndex::new('D', false);
    w.push_path_entry("D:\\a\\b.txt", false);
    Index { volumes: vec![v, w] }
}

fn refused(bytes: &[u8]) -> SnapshotError {
    match parse_snapshot(bytes) {
        Ok(_) => panic!("accepted"),
        Err(e) => e,
    }
}

#[test]
fn known_hashes() {
    assert_eq!(fnv1a(b"", 0), 0xcbf2_9ce4_8422_2325);
    assert_eq!(fnv1a(b"a", 0), 0xaf63_dc4c_8601_ec8c);
    assert_eq!(fnv1a(b"foobar", 0), 0x8594_4171_f739_67e8);
    assert_eq!(fnv1a(b"", 9), 9);
}

#[test]
fn bytes_of_an_empty_index() {
    assert_eq!(encode(&Index::new()), b"QIDX\x02\x00\x00\x00".to_vec());
}

#[test]
fn bytes_of_one_volume() {
    let mut v = VolumeIndex::new('C', true);
    v.journal_id = 1;
    v.next_usn = -1;
    v.upsert(0x0807_0605_0403_0201, 5, &units("A"), true);
    let got = encode(&Index { volumes: vec![v] });
    let mut want: Vec<u8> = b"QIDX\x02\x00\x01\x00C\x01".to_vec();
    want.extend_from_slice(&[1, 0, 0, 0, 0, 0, 0, 0]);
    want.extend_from_slice(&[0xFF; 8]);
    want.extend_from_slice(&[1, 0, 0, 0, 0, 0, 0, 0, 1, 0, 0, 0, 1, 0, 0, 0]);
    want.extend_from_slice(&[0x41, 0]);
    want.extend_from_slice(&[5, 0, 0, 0, 0, 0, 0, 0]);
    want.extend_from_slice(&[0, 0, 0, 0, 0, 0, 0, 0, 1, 0, 0, 0, 1, 0, 0, 0]);
    want.extend_from_slice(&[1, 2, 3, 4, 5, 6, 7, 8]);
    assert_eq!(got, want);
}

#[test]
fn snapshot_gives_back_what_was_stored() {
    let index = sample();
    let bytes = seal(encode(&index));
    let Ok(back) = parse_snapshot(&bytes) else { panic!("refused") };
    assert_eq!(back.volumes.len(), 2);
    for (a, b) in index.volumes.iter().zip(&back.volumes) {
        assert_eq!((a.letter, a.is_ntfs, a.journal_id, a.next_usn), (b.letter, b.is_ntfs, b.journal_id, b.next_usn));
        assert_eq!((&a.names, &a.pys, &a.frns), (&b.names, &b.pys, &b.frns));
        assert_eq!(a.entries, b.entries);
        assert_eq!(a.frn_map, b.frn_map);
        assert!(b.is_well_formed());
    }
    assert_eq!(back.volumes[0].path_for_slot(1), "Z:\\hello.txt\\微信");
    assert_eq!(seal(encode(&back)), bytes);
    let out = search(&back, "hello", None, &SearchOptions::default());
    assert_eq!(out.items[0].path, "Z:\\hello.txt");
}

#[test]
fn start_menu_directories_are_not_stored() {
    let mut index = sample();
    index.volumes[0].start_menu_frns.insert(0x1001);
    let Ok(back) = parse_snapshot(&seal(encode(&index))) else { panic!("refused") };
    assert!(back.volumes[0].start_menu_frns.is_empty());
}

#[test]
fn old_snapshots_get_the_flag_on_chinese_characters() {
    let mut index = sample();
    index.volumes[0].entries[1].flags = 1;
    let Ok(back) = parse_snapshot(&seal(encode(&index))) else { panic!("refused") };
    assert_eq!(back.volumes[0].entries[1].flags, 1 | 16);
}

#[test]
fn short_snapshots_are_refused() {
    assert_eq!(refused(&[0; 15]), SnapshotError::TooShort);
    assert_eq!(refused(&[]).message(), "快照过短");
}

#[test]
fn any_damaged_byte_is_noticed() {
    let good = seal(encode(&sample()));
    for i in 0..good.len() {
        let mut bad = good.clone();
        bad[i] ^= 0x40;
        assert_eq!(refused(&bad), SnapshotError::ChecksumMismatch);
    }
    assert_eq!(SnapshotError::ChecksumMismatch.message(), "快照校验和不匹配");
}

#[test]
fn other_versions_are_refused() {
    let mut body = encode(&sample());
    body[4] = 1;
    assert_eq!(refused(&seal(body)), SnapshotError::IncompatibleVersion);
    let mut body = encode(&sample());
    body[0] = b'X';
    assert_eq!(refused(&seal(body)), SnapshotError::IncompatibleVersion);
    assert_eq!(SnapshotError::IncompatibleVersion.message(), "快照版本不兼容");
}

#[test]
fn incomplete_snapshots_are_refused() {
    let mut body = encode(&sample());
    body.pop();
    assert_eq!(refused(&seal(body)), SnapshotError::Truncated);
    let mut body = encode(&Index::new());
    body[6] = 1;
    assert_eq!(refused(&seal(body)), SnapshotError::Truncated);
    assert_eq!(SnapshotError::Truncated.message(), "快照数据不完整");
}

#[test]
fn bytes_behind_the_volumes_are_ignored() {
    let mut body = encode(&sample());
    body.push(9);
    assert!(parse_snapshot(&seal(body)).is_ok());
}
