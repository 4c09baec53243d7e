use searchcore::mft::{absorb, align, parse_batch, scan_error, MftError};
use searchcore::VolumeIndex;

fn units(s: &str) -> Vec<u16> {
    s.encode_utf16().collect()
}

fn record(frn: u64, parent: u64, attrs: u16, name: &str) -> Vec<u8> {
    let name: Vec<u8> = units(name).iter().flat_map(|u| u.to_le_bytes()).collect();
    let mut r = vec![0u8; 60];
    r[8..16].copy_from_slice(&frn.to_le_bytes());
    r[16..24].copy_from_slice(&parent.to_le_bytes());
    r[52..54].copy_from_slice(&attrs.to_le_bytes());
    r[56..58].copy_from_slice(&(name.len() as u16).to_le_bytes());
    r[58..60].copy_from_slice(&60u16.to_le_bytes());
    r.extend_from_slice(&name);
    while r.len() % 8 != 0 {
        r.push(0);
    }
    let len = r.len() as u32;
    r[0..4].copy_from_slice(&len.to_le_bytes());
    r
}

#[test]
fn batches_are_read_and_absorbed() {
    let mut batch = 77u64.to_le_bytes().to_vec();
    batch.extend(record(5, 5, 0x10, "."));
    batch.extend(record(20, 5, 0x10, "dir"));
    batch.extend(record(21, 20, 0x20, "file.txt"));
    batch.extend(record(22, 20, 0x20, ""));
    let Some((next, records)) = parse_batch(&batch) else { panic!("nothing read") };
    assert_eq!(next, 77);
    assert_eq!(records.len(), 3);
    assert_eq!((records[2].frn, records[2].parent, records[2].is_dir), (21, 20, false));
    assert_eq!(records[2].name, units("file.txt"));
    let mut v = VolumeIndex::new('C', true);
    absorb(&mut v, &records);
    align(&mut v, 3, 4);
    assert_eq!(v.len(), 2);
    assert_eq!(v.path_for_slot(1), "C:\\dir\\file.txt");
    assert_eq!((v.journal_id, v.next_usn), (3, 4));
}

#[test]
fn an_empty_batch_ends_the_enumeration() {
    assert!(parse_batch(&[0; 7]).is_none());
    let Some((next, records)) = parse_batch(&[1; 8]) else { panic!("nothing read") };
    assert_eq!((next, records.len()), (0x0101_0101_0101_0101, 0));
}

#[test]
fn a_short_record_ends_the_batch() {
    let mut batch = 1u64.to_le_bytes().to_vec();
    let mut r = record(20, 5, 0, "a");
    r[0] = 59;
    batch.extend(r);
    assert_eq!(parse_batch(&batch).map(|(_, r)| r.len()), Some(0));
}

#[test]
fn a_name_from_an_odd_place_is_as_long_as_any() {
    let mut batch = 1u64.to_le_bytes().to_vec();
    let mut r = record(20, 5, 0, "abcd");
    r[56] = 3;
    r[58] = 61;
    batch.extend(r);
    let Some((_, records)) = parse_batch(&batch) else { panic!("nothing read") };
    assert_eq!(records[0].name, vec![0x6200]);
    let n = batch.len();
    batch[8 + 58] = (n - 8 - 3) as u8;
    let Some((_, records)) = parse_batch(&batch) else { panic!("nothing read") };
    assert_eq!(records[0].name.len(), 1);
}

#[test]
fn errors_of_the_enumeration() {
    assert!(scan_error(38).is_none());
    assert!(scan_error(0x1_0026).is_none());
    match scan_error(5) {
        Some(MftError::Io(m)) => assert_eq!(m, "FSCTL_ENUM_USN_DATA 失败: win32 错误码 5"),
        None => panic!("no error"),
    }
    assert_eq!(MftError::Io("x".to_string()).message(), "x");
}
