use searchcore::volume::{
    candidate_drives, describe, drive_letters, fixed_drives, fs_type_is_ntfs, mount_point,
    mounts_terminated,
};
use searchcore::walker::{Found, Visit, Walk};

fn padded(s: &str, n: usize) -> Vec<u16> {
    let mut u: Vec<u16> = s.encode_utf16().collect();
    u.resize(n, 0);
    u
}

#[test]
fn fixed_disks_are_candidates() {
    let mut types = [0u32; 26];
    types[2] = 3;
    types[3] = 2;
    types[25] = 3;
    assert_eq!(fixed_drives(&types), vec!['C', 'Z']);
    assert_eq!(candidate_drives(vec!['C']), vec!['C']);
    let all: Vec<char> = ('A'..='Z').collect();
    assert_eq!(drive_letters(), all);
    assert_eq!(candidate_drives(Vec::new()), all);
}

#[test]
fn the_first_drive_letter_of_the_mount_points() {
    let names = padded("C\0\\\\?\\x\0e:\\\0F:\\\0", 40);
    assert!(mounts_terminated(&names));
    assert_eq!(mount_point(&names), Some('E'));
    assert_eq!(mount_point(&padded("", 4)), None);
    assert_eq!(mount_point(&padded("1:\\", 8)), None);
    assert!(!mounts_terminated(&padded("dir", 3)));
    assert!(mounts_terminated(&[]));
}

#[test]
fn file_system_names_end_at_the_first_zero() {
    assert!(fs_type_is_ntfs(&padded("ntFS", 4)));
    assert!(fs_type_is_ntfs(&padded("NTFS", 32)));
    assert!(!fs_type_is_ntfs(&padded("FAT32", 32)));
    assert!(!fs_type_is_ntfs(&padded("NTFS2", 32)));
    assert!(!fs_type_is_ntfs(&padded("", 32)));
}

#[test]
fn volumes_without_a_path_are_left_out() {
    let Some(info) = describe(&padded("\\\\?\\Volume{1}\\", 60), Some('C'), true) else { panic!() };
    assert_eq!(info.volume_path, "\\\\?\\Volume{1}\\");
    assert_eq!((info.drive, info.is_ntfs), (Some('C'), true));
    assert!(!describe(&padded("x", 60), None, true).unwrap().clone().is_ntfs);
    assert!(describe(&padded("", 60), Some('C'), true).is_none());
    assert!(describe(&[0x41, 0x42], Some('C'), true).is_none());
}

#[test]
fn walks_descend_into_directories_only() {
    let skip = vec!["appdata".to_string()];
    let mut walk = Walk::new("D:\\");
    assert_eq!(walk.next_dir(), Some("D:\\".to_string()));
    let dir = Found { path: "D:\\a", name: Some("a"), is_dir: true, is_file: false, attributes: 0x10 };
    assert_eq!(walk.visit(&dir, &skip), Visit::Directory);
    let file = Found { path: "D:\\f", name: Some("f"), is_dir: false, is_file: true, attributes: 0x400 };
    assert_eq!(walk.visit(&file, &skip), Visit::File);
    let link = Found { path: "D:\\l", name: Some("l"), is_dir: true, is_file: false, attributes: 0x410 };
    assert_eq!(walk.visit(&link, &skip), Visit::Skipped);
    let app = Found { path: "D:\\AppData", name: Some("AppData"), is_dir: true, is_file: false, attributes: 0x10 };
    assert_eq!(walk.visit(&app, &skip), Visit::Skipped);
    let odd = Found { path: "D:\\o", name: None, is_dir: false, is_file: false, attributes: 0 };
    assert_eq!(walk.visit(&odd, &skip), Visit::Skipped);
    let unnamed = Found { path: "D:\\u", name: None, is_dir: true, is_file: false, attributes: 0 };
    assert_eq!(walk.visit(&unnamed, &skip), Visit::Directory);
    assert_eq!((walk.stats.files, walk.stats.dirs), (1, 2));
    assert_eq!(walk.next_dir(), Some("D:\\u".to_string()));
    assert_eq!(walk.next_dir(), Some("D:\\a".to_string()));
    assert_eq!(walk.next_dir(), None);
}
