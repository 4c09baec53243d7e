use searchcore::commands::normalize_excluded;
use searchcore::engine::take_found;
use searchcore::session::{Action, Event, JournalState, Phase, Session, Survey};
use searchcore::{Index, VolumeIndex};

fn units(s: &str) -> Vec<u16> {
    s.encode_utf16().collect()
}

fn survey(is_admin: bool) -> Survey {
    Survey {
        is_admin,
        candidates: vec!['C', 'D'],
        fixed: vec!['C', 'D', 'E'],
        present: vec!['C', 'D', 'E', 'F'],
        degraded: vec!["C:\\Users\\a\\Desktop".to_string()],
        disabled: Vec::new(),
        excluded: Vec::new(),
        menu: vec![vec!["menu".to_string()]],
    }
}

fn rebuilt(letter: char, journal_id: u64, next_usn: i64) -> VolumeIndex {
    let mut v = VolumeIndex::new(letter, true);
    v.journal_id = journal_id;
    v.next_usn = next_usn;
    v.upsert(10, 5, &units("menu"), true);
    v.upsert(11, 10, &units("x.lnk"), false);
    v
}

fn rebuild_of(a: Action) -> char {
    match a {
        Action::Rebuild(d) => d,
        _ => panic!("no rebuild"),
    }
}

fn walk_of(a: Action) -> (char, String) {
    match a {
        Action::Walk(d, root) => (d, root),
        _ => panic!("no walk"),
    }
}

fn query_of(a: Action) -> char {
    match a {
        Action::Query(d) => d,
        _ => panic!("no query"),
    }
}

fn listen_of(a: Action) -> (char, u64, i64) {
    match a {
        Action::Listen(l) => (l.letter, l.journal_id, l.cursor),
        _ => panic!("no listening"),
    }
}

#[test]
fn startup_without_a_snapshot() {
    let mut index = Index::new();
    let mut s = Session::from_scratch(survey(true), false);
    assert_eq!(rebuild_of(s.step(&mut index, Event::Begin)), 'C');
    assert_eq!(rebuild_of(s.step(&mut index, Event::Rebuilt(Some(rebuilt('C', 1, 100))))), 'D');
    assert_eq!(walk_of(s.step(&mut index, Event::Rebuilt(None))), ('D', "D:\\".to_string()));
    let mut walked = VolumeIndex::new('D', false);
    walked.push_path_entry("D:\\a", false);
    assert_eq!(walk_of(s.step(&mut index, Event::Walked(walked))), ('E', "E:\\".to_string()));
    assert!(matches!(s.step(&mut index, Event::Walked(VolumeIndex::new('E', false))), Action::Save));
    assert!(index.volumes[0].entries[1].is_start_menu());
    assert_eq!(query_of(s.step(&mut index, Event::Saved)), 'C');
    let j = JournalState { id: 1, first: 0, next: 120 };
    assert_eq!(listen_of(s.step(&mut index, Event::Journal(Some(j)))), ('C', 1, 100));
    assert!(matches!(s.step(&mut index, Event::Listening), Action::Done));
    assert_eq!((s.live.clone(), s.built.clone()), (vec!['C'], vec!['C']));
    assert_eq!(s.phase, Phase::Done);
    assert_eq!(index.volumes.len(), 3);
}

#[test]
fn startup_without_rights_walks_only() {
    let mut index = Index::new();
    let mut s = Session::from_scratch(survey(false), false);
    assert_eq!(
        walk_of(s.step(&mut index, Event::Begin)),
        ('C', "C:\\Users\\a\\Desktop".to_string())
    );
    for (walked, next) in [('C', 'D'), ('D', 'E'), ('E', 'F')] {
        let a = s.step(&mut index, Event::Walked(VolumeIndex::new(walked, false)));
        assert_eq!(walk_of(a), (next, format!("{next}:\\")));
    }
    let a = s.step(&mut index, Event::Walked(VolumeIndex::new('F', false)));
    assert!(matches!(a, Action::Save));
    let letters: Vec<char> = index.volumes.iter().map(|v| v.letter).collect();
    assert_eq!(letters, vec!['C', 'D', 'E', 'F']);
    assert!(matches!(s.step(&mut index, Event::Saved), Action::Done));
    assert!(s.live.is_empty());
}

#[test]
fn a_snapshot_catches_up_with_its_journal() {
    let mut index = Index { volumes: vec![rebuilt('C', 1, 100), rebuilt('D', 2, 50)] };
    let mut s = Session::with_snapshot(survey(true), &mut index);
    assert!(index.volumes[0].entries[1].is_start_menu());
    assert_eq!(query_of(s.step(&mut index, Event::Begin)), 'C');
    let j = JournalState { id: 1, first: 100, next: 300 };
    assert_eq!(listen_of(s.step(&mut index, Event::Journal(Some(j)))), ('C', 1, 100));
    assert_eq!(query_of(s.step(&mut index, Event::Listening)), 'D');
    let lost = JournalState { id: 2, first: 51, next: 300 };
    assert_eq!(rebuild_of(s.step(&mut index, Event::Journal(Some(lost)))), 'D');
    let a = s.step(&mut index, Event::Rebuilt(Some(rebuilt('D', 2, 300))));
    assert_eq!(listen_of(a), ('D', 2, 300));
    assert!(matches!(s.step(&mut index, Event::Listening), Action::Done));
    assert_eq!(s.live, vec!['C', 'D']);
    assert_eq!(index.volumes.len(), 2);
}

#[test]
fn another_journal_has_the_volume_rebuilt() {
    let mut index = Index { volumes: vec![rebuilt('C', 1, 100)] };
    let mut s = Session::with_snapshot(survey(true), &mut index);
    assert_eq!(rebuild_of(s.step(&mut index, Event::Begin)), 'D');
    assert_eq!(query_of(s.step(&mut index, Event::Rebuilt(None))), 'C');
    let other = JournalState { id: 9, first: 0, next: 5 };
    assert_eq!(rebuild_of(s.step(&mut index, Event::Journal(Some(other)))), 'C');
    assert!(matches!(s.step(&mut index, Event::Rebuilt(None)), Action::Done));
    assert!(s.live.is_empty());
}

#[test]
fn walked_volumes_of_a_snapshot_are_upgraded() {
    let mut index = Index { volumes: vec![VolumeIndex::new('C', false), VolumeIndex::new('E', false)] };
    let mut s = Session::with_snapshot(survey(true), &mut index);
    assert_eq!(rebuild_of(s.step(&mut index, Event::Begin)), 'C');
    assert_eq!(rebuild_of(s.step(&mut index, Event::Rebuilt(Some(rebuilt('C', 1, 7))))), 'D');
    assert!(matches!(s.step(&mut index, Event::Rebuilt(None)), Action::Save));
    let kinds: Vec<(char, bool)> = index.volumes.iter().map(|v| (v.letter, v.is_ntfs)).collect();
    assert_eq!(kinds, vec![('E', false), ('C', true)]);
    assert!(index.volumes[1].entries[1].is_start_menu());
    assert_eq!(query_of(s.step(&mut index, Event::Saved)), 'C');
    assert!(matches!(s.step(&mut index, Event::Journal(None)), Action::Done));
}

#[test]
fn building_anew_leaves_out_what_is_disabled_or_excluded() {
    let mut wanted = survey(true);
    wanted.disabled = vec!['D', 'E'];
    wanted.excluded = vec!["c:\\menu".to_string()];
    let mut index = Index::new();
    let mut s = Session::from_scratch(wanted, true);
    assert_eq!(rebuild_of(s.step(&mut index, Event::Begin)), 'C');
    let a = s.step(&mut index, Event::Rebuilt(Some(rebuilt('C', 1, 100))));
    assert!(matches!(a, Action::Save));
    assert_eq!(index.volumes[0].len(), 0);
    assert_eq!(query_of(s.step(&mut index, Event::Saved)), 'C');
    let lost = JournalState { id: 3, first: 0, next: 120 };
    assert_eq!(listen_of(s.step(&mut index, Event::Journal(Some(lost)))), ('C', 3, 120));
}

#[test]
fn building_anew_leaves_out_what_is_excluded_on_walked_drives() {
    let mut wanted = survey(false);
    wanted.present = vec!['D'];
    wanted.excluded = normalize_excluded(&["D:/Temp/".to_string()]);
    let mut index = Index::new();
    let mut s = Session::from_scratch(wanted, true);
    assert_eq!(walk_of(s.step(&mut index, Event::Begin)), ('D', "D:\\".to_string()));
    let mut walked = VolumeIndex::new('D', false);
    for path in ["D:\\Temp", "D:\\Temp\\a", "D:\\b"] {
        take_found(&mut walked, path, false, &s.survey.excluded);
    }
    assert!(matches!(s.step(&mut index, Event::Walked(walked)), Action::Save));
    let v = &index.volumes[0];
    let left: Vec<String> =
        v.entries.iter().map(|e| String::from_utf16_lossy(v.name_slice(e))).collect();
    assert_eq!(left, vec!["D:\\b"]);
    assert!(matches!(s.step(&mut index, Event::Saved), Action::Done));
    assert!(s.live.is_empty());
}

#[test]
fn events_out_of_place_change_nothing() {
    let mut index = Index::new();
    let mut s = Session::from_scratch(survey(true), false);
    assert_eq!(rebuild_of(s.step(&mut index, Event::Saved)), 'C');
    assert_eq!(rebuild_of(s.step(&mut index, Event::Listening)), 'C');
    assert_eq!(rebuild_of(s.step(&mut index, Event::Journal(None))), 'C');
    assert_eq!(rebuild_of(s.step(&mut index, Event::Walked(VolumeIndex::new('C', false)))), 'C');
    assert!(index.volumes.is_empty());
}
