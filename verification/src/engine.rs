//! The decisions of the engine that builds the index, keeps it up to date and stores it: which
//! directories count as start menu, what is left out, which volumes are replaced, and when the
//! journal loop saves, rebuilds or stops.

use vstd::prelude::*;

use crate::history;
use crate::index;
use crate::index::{Index, VolumeIndex};
use crate::laws;
use crate::model;
use crate::model::VolumeModel;
use crate::py;
use crate::text;
use crate::text::{chars_contain, chars_of, chars_start_with, concat, copy_str, split_pieces, to_path_key};
use crate::types;
use crate::types::FLAG_IS_PATH;
use crate::usn;
use crate::usn::{apply_updates, UsnError, UsnUpdate};
use crate::volume;
use crate::volume::drive_letter;

verus! {

/// How long the journal loop lets changes wait for a snapshot, in nanoseconds.
pub const SAVE_AFTER_NS: u128 = 60_000_000_000;

#[derive(Debug)]
pub struct EngineStats {
    pub entries: usize,
    /// Letter, whether it is NTFS, and number of entries of each volume.
    pub volumes: Vec<(char, bool, usize)>,
    pub from_snapshot: bool,
    pub startup_ms: u128,
    pub is_admin: bool,
    /// The volumes whose journal is listened to.
    pub usn_live: Vec<char>,
}

/// Letter, kind and size of each volume.
pub open spec fn volume_lines(volumes: Seq<VolumeModel>) -> Seq<(char, bool, usize)> {
    volumes.map_values(|m: VolumeModel| (m.letter, m.is_ntfs, m.entries.len() as usize))
}

impl EngineStats {
    /// What is reported of an index.
    pub fn collect(
        index: &Index,
        from_snapshot: bool,
        startup_ms: u128,
        is_admin: bool,
        usn_live: Vec<char>,
    ) -> (r: EngineStats)
        requires
            index::entry_count(index@) <= usize::MAX,
        ensures
            r.entries == index::entry_count(index@),
            r.volumes@ == volume_lines(index@),
            r.from_snapshot == from_snapshot,
            r.startup_ms == startup_ms,
            r.is_admin == is_admin,
            r.usn_live == usn_live,
    {
        let mut volumes: Vec<(char, bool, usize)> = Vec::new();
        for i in 0..index.volumes.len()
            invariant
                volumes@ == volume_lines(index@.take(i as int)),
        {
            let v = &index.volumes[i];
            assert(index@[i as int] == v@);
            volumes.push((v.letter, v.is_ntfs, v.len()));
            assert(volumes@ =~= volume_lines(index@.take(i + 1)));
        }
        assert(index@.take(index@.len() as int) =~= index@);
        EngineStats {
            entries: index.total_entries(),
            volumes,
            from_snapshot,
            startup_ms,
            is_admin,
            usn_live,
        }
    }
}

impl Clone for EngineStats {
    fn clone(&self) -> (r: EngineStats)
        ensures
            r.entries == self.entries,
            r.volumes@ == self.volumes@,
            r.from_snapshot == self.from_snapshot,
            r.startup_ms == self.startup_ms,
            r.is_admin == self.is_admin,
            r.usn_live@ == self.usn_live@,
    {
        let mut volumes: Vec<(char, bool, usize)> = Vec::new();
        for i in 0..self.volumes.len()
            invariant
                volumes@ == self.volumes@.take(i as int),
        {
            volumes.push(self.volumes[i]);
            assert(volumes@ =~= self.volumes@.take(i + 1));
        }
        assert(self.volumes@.take(self.volumes@.len() as int) =~= self.volumes@);
        EngineStats {
            entries: self.entries,
            volumes,
            from_snapshot: self.from_snapshot,
            startup_ms: self.startup_ms,
            is_admin: self.is_admin,
            usn_live: copy_letters(self.usn_live.as_slice()),
        }
    }
}

/// A copy of a list of letters.
pub fn copy_letters(letters: &[char]) -> (r: Vec<char>)
    ensures
        r@ == letters@,
{
    let mut out: Vec<char> = Vec::new();
    for i in 0..letters.len()
        invariant
            out@ == letters@.take(i as int),
    {
        out.push(letters[i]);
        assert(out@ =~= letters@.take(i + 1));
    }
    assert(letters@.take(letters@.len() as int) =~= letters@);
    out
}

/// The start menu directory of all users.
pub open spec fn common_programs() -> Seq<Seq<char>> {
    seq!["ProgramData"@, "Microsoft"@, "Windows"@, "Start Menu"@, "Programs"@]
}

/// The start menu directory of a user, from the home directory on.
pub open spec fn user_programs() -> Seq<Seq<char>> {
    seq!["AppData"@, "Roaming"@, "Microsoft"@, "Windows"@, "Start Menu"@, "Programs"@]
}

/// A list without its first item.
pub open spec fn tail(s: Seq<Seq<char>>) -> Seq<Seq<char>> {
    if s.len() == 0 {
        s
    } else {
        s.drop_first()
    }
}

/// The start menu directories: that of all users and, where a home directory like `C:\Users\x` is
/// known, that of the user.
pub open spec fn menu_paths(home: Option<Seq<char>>) -> Seq<Seq<Seq<char>>> {
    match home {
        Some(h) => if tail(text::pieces(h, '\\')).len() > 0 {
            seq![common_programs(), tail(text::pieces(h, '\\')) + user_programs()]
        } else {
            seq![common_programs()]
        },
        None => seq![common_programs()],
    }
}

/// The text of an optional string.
pub open spec fn text_of(s: Option<&str>) -> Option<Seq<char>> {
    match s {
        Some(t) => Some(t@),
        None => None,
    }
}

fn push_text(list: &mut Vec<String>, s: &str)
    ensures
        text::texts(final(list)@) == text::texts(old(list)@).push(s@),
{
    list.push(copy_str(s));
    assert(text::texts(list@) =~= text::texts(old(list)@).push(s@));
}

/// The start menu directories that are ranked up, as paths from the root of their volume.
pub fn start_menu_paths(home: Option<&str>) -> (r: Vec<Vec<String>>)
    ensures
        index::path_texts(r@) == menu_paths(text_of(home)),
{
    let mut common: Vec<String> = Vec::new();
    assert(text::texts(common@) =~= seq![]);
    push_text(&mut common, "ProgramData");
    push_text(&mut common, "Microsoft");
    push_text(&mut common, "Windows");
    push_text(&mut common, "Start Menu");
    push_text(&mut common, "Programs");
    assert(text::texts(common@) =~= common_programs());
    let mut paths: Vec<Vec<String>> = Vec::new();
    paths.push(common);
    assert(index::path_texts(paths@) =~= seq![common_programs()]);
    if let Some(h) = home {
        let mut segments = split_pieces(h, '\\');
        if segments.len() > 0 {
            let ghost all = text::texts(segments@);
            segments.remove(0);
            assert(text::texts(segments@) =~= tail(all));
            if segments.len() > 0 {
                push_text(&mut segments, "AppData");
                push_text(&mut segments, "Roaming");
                push_text(&mut segments, "Microsoft");
                push_text(&mut segments, "Windows");
                push_text(&mut segments, "Start Menu");
                push_text(&mut segments, "Programs");
                assert(text::texts(segments@) =~= tail(all) + user_programs());
                paths.push(segments);
                assert(index::path_texts(paths@) =~= seq![
                    common_programs(),
                    tail(all) + user_programs(),
                ]);
            }
        }
    }
    paths
}

/// The volumes with their start menus marked; only NTFS volumes have what it takes.
pub open spec fn marked(
    volumes: Seq<VolumeModel>,
    paths: Seq<Seq<Seq<char>>>,
) -> Seq<VolumeModel> {
    volumes.map_values(
        |m: VolumeModel|
            if m.is_ntfs {
                m.mark_start_menu(paths)
            } else {
                m
            },
    )
}

/// All volumes are well-formed.
pub open spec fn all_wf(volumes: Seq<VolumeModel>) -> bool {
    forall|v: int| #![trigger volumes[v]] 0 <= v < volumes.len() ==> volumes[v].wf()
}

/// Marks the start menus of all NTFS volumes.
pub fn mark_all_start_menu(index: &mut Index, paths: &[Vec<String>])
    requires
        all_wf(old(index)@),
    ensures
        final(index)@ == marked(old(index)@, index::path_texts(paths@)),
        all_wf(final(index)@),
{
    let ghost before = index@;
    let ghost texts = index::path_texts(paths@);
    let n: usize = index.volumes.len();
    for i in 0..n
        invariant
            n == before.len(),
            index@.len() == n,
            all_wf(before),
            all_wf(index@),
            texts == index::path_texts(paths@),
            forall|j: int| #![trigger index@[j]]
                0 <= j < n ==> index@[j] == if j < i {
                    marked(before, texts)[j]
                } else {
                    before[j]
                },
    {
        let ghost had = index.volumes@;
        let ghost models = index@;
        assert(models[i as int] == had[i as int]@);
        assert(had[i as int]@.wf());
        if index.volumes[i].is_ntfs {
            let v = &mut index.volumes[i];
            v.mark_start_menu(paths);
        }
        proof {
            assert forall|j: int| #![trigger index@[j]] 0 <= j < n implies index@[j] == (if j < i + 1 {
                marked(before, texts)[j]
            } else {
                before[j]
            }) && index@[j].wf() by {
                assert(models[j] == had[j]@);
                assert(models[j].wf());
                assert(index@[j] == index.volumes@[j]@);
            }
        }
    }
    assert(index@ =~= marked(before, texts));
}

/// The volumes but those that are to be dropped: all of a letter, or only those that were walked.
pub open spec fn without(volumes: Seq<VolumeModel>, letter: char, walked_only: bool) -> Seq<
    VolumeModel,
>
    decreases volumes.len(),
{
    if volumes.len() == 0 {
        seq![]
    } else {
        let rest = without(volumes.drop_last(), letter, walked_only);
        if is_dropped(volumes.last(), letter, walked_only) {
            rest
        } else {
            rest.push(volumes.last())
        }
    }
}

/// Whether a volume is to be dropped.
pub open spec fn is_dropped(m: VolumeModel, letter: char, walked_only: bool) -> bool {
    m.letter == letter && !(walked_only && m.is_ntfs)
}

proof fn lemma_without_wf(volumes: Seq<VolumeModel>, letter: char, walked_only: bool)
    requires
        all_wf(volumes),
    ensures
        all_wf(without(volumes, letter, walked_only)),
        without(volumes, letter, walked_only).len() <= volumes.len(),
    decreases volumes.len(),
{
    if volumes.len() > 0 {
        assert(volumes[volumes.len() - 1].wf());
        assert forall|v: int| #![trigger volumes.drop_last()[v]] 0 <= v
            < volumes.drop_last().len() implies volumes.drop_last()[v].wf() by {
            assert(volumes.drop_last()[v] == volumes[v]);
        }
        lemma_without_wf(volumes.drop_last(), letter, walked_only);
    }
}

/// Drops the volumes of a letter, or only those that were walked.
fn drop_volumes(index: &mut Index, letter: char, walked_only: bool)
    ensures
        final(index)@ == without(old(index)@, letter, walked_only),
{
    let ghost before = index@;
    let ghost mut seen: int = 0;
    let mut i: usize = 0;
    assert(before.take(0) =~= seq![]);
    while i < index.volumes.len()
        invariant
            i <= index@.len(),
            0 <= seen <= before.len(),
            index@.len() - i == before.len() - seen,
            index@.take(i as int) == without(before.take(seen), letter, walked_only),
            index@.skip(i as int) == before.skip(seen),
        decreases index@.len() - i,
    {
        let ghost had = index@;
        proof {
            assert(had[i as int] == index.volumes@[i as int]@);
            assert(had.skip(i as int)[0] == had[i as int]);
            assert(before.skip(seen)[0] == before[seen]);
            assert(before.take(seen + 1).drop_last() =~= before.take(seen));
            assert(before.skip(seen).skip(1) =~= before.skip(seen + 1));
            assert(had.skip(i as int).skip(1) =~= had.skip(i + 1));
        }
        let drop = index.volumes[i].letter == letter && !(walked_only && index.volumes[i].is_ntfs);
        if drop {
            index.volumes.remove(i);
            assert(index@ =~= had.remove(i as int));
            assert(index@.take(i as int) =~= had.take(i as int));
            assert(index@.skip(i as int) =~= had.skip(i + 1));
        } else {
            assert(had.take(i + 1) =~= had.take(i as int).push(had[i as int]));
            i = i + 1;
        }
        proof {
            seen = seen + 1;
        }
    }
    assert(index@.take(i as int) =~= index@);
    assert(before.take(seen) =~= before);
}

/// Puts a rebuilt volume in the place of what was there under its letter: of all volumes, or only
/// of those that were walked.
pub fn replace_volume(index: &mut Index, v: VolumeIndex, walked_only: bool)
    ensures
        final(index)@ == without(old(index)@, v@.letter, walked_only).push(v@),
        all_wf(old(index)@) && v@.wf() ==> all_wf(final(index)@),
{
    let ghost before = index@;
    let letter = v.letter;
    drop_volumes(index, letter, walked_only);
    let ghost kept = index@;
    index.volumes.push(v);
    assert(index@ =~= kept.push(v@));
    proof {
        if all_wf(before) && v@.wf() {
            lemma_without_wf(before, letter, walked_only);
        }
    }
}

/// The first volume of a letter, from a given one on.
pub open spec fn volume_from(volumes: Seq<VolumeModel>, letter: char, i: int) -> Option<int>
    decreases volumes.len() - i,
{
    if i < 0 || i >= volumes.len() {
        None
    } else if volumes[i].letter == letter {
        Some(i)
    } else {
        volume_from(volumes, letter, i + 1)
    }
}

/// Finds the first volume of a letter.
pub fn find_volume(index: &Index, letter: char) -> (r: Option<usize>)
    ensures
        match r {
            Some(i) => volume_from(index@, letter, 0) == Some(i as int) && i < index@.len(),
            None => volume_from(index@, letter, 0) is None,
        },
{
    for i in 0..index.volumes.len()
        invariant
            volume_from(index@, letter, 0) == volume_from(index@, letter, i as int),
    {
        assert(index@[i as int] == index.volumes@[i as int]@);
        if index.volumes[i].letter == letter {
            return Some(i);
        }
    }
    None
}

/// Whether there is an NTFS volume of a letter.
pub open spec fn has_ntfs_volume(volumes: Seq<VolumeModel>, letter: char) -> bool {
    exists|i: int| #![trigger volumes[i]]
        0 <= i < volumes.len() && volumes[i].letter == letter && volumes[i].is_ntfs
}

/// Whether a volume has been indexed by its file table.
pub fn has_mft(index: &Index, letter: char) -> (r: bool)
    ensures
        r == has_ntfs_volume(index@, letter),
{
    for i in 0..index.volumes.len()
        invariant
            forall|j: int| #![trigger index@[j]]
                0 <= j < i ==> !(index@[j].letter == letter && index@[j].is_ntfs),
    {
        assert(index@[i as int] == index.volumes@[i as int]@);
        if index.volumes[i].letter == letter && index.volumes[i].is_ntfs {
            return true;
        }
    }
    false
}

/// The letters of the NTFS volumes.
pub open spec fn ntfs_letters_of(volumes: Seq<VolumeModel>) -> Seq<char>
    decreases volumes.len(),
{
    if volumes.len() == 0 {
        seq![]
    } else if volumes.last().is_ntfs {
        ntfs_letters_of(volumes.drop_last()).push(volumes.last().letter)
    } else {
        ntfs_letters_of(volumes.drop_last())
    }
}

/// The letters of the NTFS volumes, whose journals can be listened to.
pub fn ntfs_letters(index: &Index) -> (r: Vec<char>)
    ensures
        r@ == ntfs_letters_of(index@),
{
    let mut out: Vec<char> = Vec::new();
    assert(index@.take(0) =~= seq![]);
    for i in 0..index.volumes.len()
        invariant
            out@ == ntfs_letters_of(index@.take(i as int)),
    {
        assert(index@[i as int] == index.volumes@[i as int]@);
        assert(index@.take(i + 1).drop_last() =~= index@.take(i as int));
        if index.volumes[i].is_ntfs {
            out.push(index.volumes[i].letter);
        }
    }
    assert(index@.take(index@.len() as int) =~= index@);
    out
}

/// Whether a path lies in an excluded directory: it begins with it, and the directory's name ends
/// there.
pub open spec fn lies_in(path: Seq<char>, dir: Seq<char>) -> bool {
    let key = text::path_key(path);
    dir.is_prefix_of(key) && (key.len() == dir.len() || key[dir.len() as int] == '\\')
}

/// Whether a path lies in one of the excluded directories.
pub open spec fn lies_in_any(path: Seq<char>, dirs: Seq<Seq<char>>) -> bool {
    exists|i: int| #![trigger dirs[i]] 0 <= i < dirs.len() && lies_in(path, dirs[i])
}

/// Whether a path lies in one of the excluded directories, which are given in lower case and with
/// `\` as separator.
pub fn is_excluded_prefix(path: &str, excluded: &[String]) -> (r: bool)
    ensures
        r == lies_in_any(path@, text::texts(excluded@)),
{
    let ghost dirs = text::texts(excluded@);
    let key = to_path_key(path);
    for i in 0..excluded.len()
        invariant
            dirs == text::texts(excluded@),
            key@ == text::path_key(path@),
            forall|j: int| #![trigger dirs[j]] 0 <= j < i ==> !lies_in(path@, dirs[j]),
    {
        let dir = chars_of(excluded[i].as_str());
        assert(dirs[i as int] == dir@);
        if chars_start_with(key.as_slice(), dir.as_slice()) {
            if key.len() == dir.len() || key[dir.len()] == '\\' {
                return true;
            }
        }
    }
    false
}

/// The file reference numbers of the first `n` entries that lie in excluded directories.
pub open spec fn excluded_frns(m: VolumeModel, dirs: Seq<Seq<char>>, n: int) -> Seq<u64>
    decreases n,
{
    if n <= 0 {
        seq![]
    } else if lies_in_any(m.path(n - 1), dirs) {
        excluded_frns(m, dirs, n - 1).push(m.frns[n - 1])
    } else {
        excluded_frns(m, dirs, n - 1)
    }
}

/// The index after the removal of some files.
pub open spec fn removed_all(m: VolumeModel, frns: Seq<u64>) -> VolumeModel
    decreases frns.len(),
{
    if frns.len() == 0 {
        m
    } else if frns.last() == 0 {
        removed_all(m, frns.drop_last())
    } else {
        removed_all(m, frns.drop_last()).remove(frns.last())
    }
}

/// Takes the entries in excluded directories out of the index of a volume; their paths are known
/// only once the whole volume is indexed.
pub fn filter_volume_excluded(vi: &mut VolumeIndex, excluded: &[String])
    requires
        old(vi)@.wf(),
    ensures
        final(vi)@ == removed_all(
            old(vi)@,
            excluded_frns(old(vi)@, text::texts(excluded@), old(vi)@.entries.len() as int),
        ),
        final(vi)@.wf(),
        history::in_order(old(vi)@) ==> history::in_order(final(vi)@),
{
    let ghost before = vi@;
    let ghost dirs = text::texts(excluded@);
    let n: usize = vi.len();
    let mut removed: Vec<u64> = Vec::new();
    for i in 0..n
        invariant
            vi@ == before,
            before.wf(),
            n == before.entries.len(),
            dirs == text::texts(excluded@),
            removed@ == excluded_frns(before, dirs, i as int),
    {
        if is_excluded_prefix(vi.path_for_slot(i as u32).as_str(), excluded) {
            removed.push(vi.frns[i]);
        }
    }
    assert(removed@.take(0) =~= seq![]);
    for i in 0..removed.len()
        invariant
            vi@ == removed_all(before, removed@.take(i as int)),
            vi@.wf(),
            history::in_order(before) ==> history::in_order(vi@),
    {
        assert(removed@.take(i + 1).drop_last() =~= removed@.take(i as int));
        if removed[i] != 0 {
            vi.remove(removed[i]);
        }
    }
    assert(removed@.take(removed@.len() as int) =~= removed@);
}

proof fn lemma_removed_all(m: VolumeModel, frns: Seq<u64>)
    requires
        m.wf(),
        m.addressable(),
    ensures
        removed_all(m, frns).wf(),
        removed_all(m, frns).addressable(),
        forall|f: u64| #[trigger]
            removed_all(m, frns).live().contains_key(f) <==> m.live().contains_key(f)
                && !frns.contains(f),
        forall|f: u64| #[trigger]
            removed_all(m, frns).live().contains_key(f) ==> removed_all(m, frns).live()[f]
                == m.live()[f],
    decreases frns.len(),
{
    if frns.len() > 0 {
        let rest = frns.drop_last();
        let last = frns.last();
        lemma_removed_all(m, rest);
        let before = removed_all(m, rest);
        let after = removed_all(m, frns);
        if last != 0 {
            laws::law_remove_live(before, last);
            laws::lemma_remove_wf(before, last);
            if before.frn_map.contains_key(last) {
                laws::lemma_remove_sizes(before, last);
            }
        } else {
            assert(!m.live().contains_key(0));
        }
        assert forall|f: u64| #[trigger]
            after.live().contains_key(f) <==> m.live().contains_key(f) && !frns.contains(f) by {
            assert(before.live().contains_key(f) <==> m.live().contains_key(f) && !rest.contains(
                f,
            ));
            if frns.contains(f) && f != last {
                let i = choose|i: int| 0 <= i < frns.len() && frns[i] == f;
                assert(rest[i] == f);
            }
            if rest.contains(f) {
                let i = choose|i: int| 0 <= i < rest.len() && rest[i] == f;
                assert(frns[i] == f);
            }
            assert(frns[frns.len() - 1] == last);
        }
        assert forall|f: u64| #[trigger] after.live().contains_key(f) implies after.live()[f]
            == m.live()[f] by {
            assert(before.live().contains_key(f));
        }
    }
}

proof fn lemma_excluded_frns(m: VolumeModel, dirs: Seq<Seq<char>>, n: int, f: u64)
    requires
        0 <= n,
    ensures
        excluded_frns(m, dirs, n).contains(f) <==> exists|s: int| #![trigger m.frns[s]]
            0 <= s < n && m.frns[s] == f && lies_in_any(m.path(s), dirs),
    decreases n,
{
    if n > 0 {
        lemma_excluded_frns(m, dirs, n - 1, f);
        let rest = excluded_frns(m, dirs, n - 1);
        let all = excluded_frns(m, dirs, n);
        if rest.contains(f) {
            let i = choose|i: int| 0 <= i < rest.len() && rest[i] == f;
            assert(all[i] == f);
        }
        if lies_in_any(m.path(n - 1), dirs) {
            assert(all[all.len() - 1] == m.frns[n - 1]);
            if all.contains(f) && f != m.frns[n - 1] {
                let i = choose|i: int| 0 <= i < all.len() && all[i] == f;
                assert(rest[i] == f);
            }
        }
    }
}

/// After the filter, a file is indexed exactly if it was before and its path lies in none of the
/// excluded directories; nothing else changes about it.
pub proof fn law_filter_keeps_the_rest(m: VolumeModel, dirs: Seq<Seq<char>>, f: u64)
    requires
        m.wf(),
        m.addressable(),
    ensures
        ({
            let after = removed_all(m, excluded_frns(m, dirs, m.entries.len() as int));
            &&& after.live().contains_key(f) <==> m.live().contains_key(f) && !lies_in_any(
                m.path(m.frn_map[f] as int),
                dirs,
            )
            &&& after.live().contains_key(f) ==> after.live()[f] == m.live()[f]
        }),
{
    let frns = excluded_frns(m, dirs, m.entries.len() as int);
    lemma_removed_all(m, frns);
    lemma_excluded_frns(m, dirs, m.entries.len() as int, f);
    let after = removed_all(m, frns);
    assert(after.live().contains_key(f) <==> m.live().contains_key(f) && !frns.contains(f));
    if m.live().contains_key(f) {
        let s = m.frn_map[f] as int;
        assert(m.frns[s] == f);
        assert forall|t: int| #![trigger m.frns[t]] 0 <= t < m.entries.len() && m.frns[t]
            == f implies t == s by {
            assert(m.frn_map[m.frns[t]] == t);
        }
    }
}

/// A directory as it is compared: not empty, and without a separator at its end.
pub open spec fn is_bare(dir: Seq<char>) -> bool {
    dir.len() > 0 && dir.last() != '\\'
}

/// Directories as they are compared.
pub open spec fn all_bare(dirs: Seq<Seq<char>>) -> bool {
    forall|i: int| #![trigger dirs[i]] 0 <= i < dirs.len() ==> is_bare(dirs[i])
}

/// What is put below a path that lies in a directory lies in it too.
proof fn lemma_lies_in_below(path: Seq<char>, name: Seq<u16>, dir: Seq<char>)
    requires
        is_bare(dir),
        lies_in(path, dir),
    ensures
        lies_in(model::add_component(path, name), dir),
{
    let key = text::path_key(path);
    let more = model::add_component(path, name);
    let longer = text::path_key(more);
    assert forall|i: int| 0 <= i < key.len() implies longer[i] == key[i] by {
        assert(more[i] == path[i]);
    }
    assert forall|i: int| 0 <= i < dir.len() implies longer[i] == dir[i] by {
        assert(key[i] == dir[i]);
    }
    assert(dir =~= longer.take(dir.len() as int));
    if more.len() > path.len() && key.len() == dir.len() {
        let n = path.len() as int;
        assert(key[n - 1] == dir.last());
        if path.last() == '\\' {
            assert(text::lower_char('\\') == '\\');
            assert(key[n - 1] == '\\');
        }
        assert(more[n] == '\\');
        assert(longer[n] == '\\');
    }
}

/// Removing files does not change whose index it is.
pub proof fn lemma_removed_letter(m: VolumeModel, frns: Seq<u64>)
    ensures
        removed_all(m, frns).letter == m.letter,
        removed_all(m, frns).is_ntfs == m.is_ntfs,
    decreases frns.len(),
{
    if frns.len() > 0 {
        lemma_removed_letter(m, frns.drop_last());
    }
}

proof fn lemma_chain_stays(m: VolumeModel, slot: int, few: nat, many: nat)
    requires
        few <= many,
        m.chain(slot, few).len() < few,
    ensures
        m.chain(slot, many) == m.chain(slot, few),
    decreases few,
{
    if 0 <= slot < m.entries.len() {
        let e = m.entries[slot];
        if !(e.parent == 0 || e.parent == model::ROOT_FRN || !m.frn_map.contains_key(e.parent)) {
            lemma_chain_stays(
                m,
                m.frn_map[e.parent] as int,
                (few - 1) as nat,
                (many - 1) as nat,
            );
        }
    }
}

/// What the filter leaves of a volume, with the way up from a file that is not excluded.
proof fn lemma_filtered_chain(m: VolumeModel, dirs: Seq<Seq<char>>, f: u64, steps: nat)
    requires
        m.wf(),
        m.addressable(),
        all_bare(dirs),
        m.frn_map.contains_key(f),
        !lies_in_any(m.path(m.frn_map[f] as int), dirs),
        steps <= model::MAX_DEPTH,
        m.chain(m.frn_map[f] as int, steps).len() < steps,
    ensures
        ({
            let after = removed_all(m, excluded_frns(m, dirs, m.entries.len() as int));
            &&& after.frn_map.contains_key(f)
            &&& after.chain(after.frn_map[f] as int, steps) == m.chain(
                m.frn_map[f] as int,
                steps,
            )
        }),
    decreases steps,
{
    let after = removed_all(m, excluded_frns(m, dirs, m.entries.len() as int));
    let s = m.frn_map[f] as int;
    let e = m.entries[s];
    law_filter_keeps_the_rest(m, dirs, f);
    lemma_removed_all(m, excluded_frns(m, dirs, m.entries.len() as int));
    assert(m.live().contains_key(f));
    assert(after.live().contains_key(f));
    let t = after.frn_map[f] as int;
    assert(m.frns[s] == f);
    assert(after.frns[t] == f);
    assert(after.node(t) == m.node(s)) by {
        assert(after.live()[f] == m.live()[f]);
    }
    let up = e.parent;
    law_filter_keeps_the_rest(m, dirs, up);
    assert(after.live().contains_key(up) ==> m.live().contains_key(up));
    if up == 0 || up == model::ROOT_FRN || !m.frn_map.contains_key(up) {
        assert(!after.frn_map.contains_key(up) || up == model::ROOT_FRN) by {
            if after.frn_map.contains_key(up) {
                assert(after.live().contains_key(up));
            }
        }
        assert(after.chain(t, steps) =~= m.chain(s, steps));
    } else {
        let above = m.frn_map[up] as int;
        assert(m.frns[above] == up);
        let rest = m.chain(above, (steps - 1) as nat);
        assert(m.chain(s, steps).len() == 1 + rest.len());
        lemma_chain_stays(m, above, (steps - 1) as nat, model::MAX_DEPTH as nat);
        laws::law_path_of_child(m, s);
        if lies_in_any(m.path(above), dirs) {
            let i = choose|i: int| #![trigger dirs[i]]
                0 <= i < dirs.len() && lies_in(m.path(above), dirs[i]);
            lemma_lies_in_below(m.path(above), m.name_of(e), dirs[i]);
            assert(lies_in_any(m.path(s), dirs));
        }
        lemma_filtered_chain(m, dirs, up, (steps - 1) as nat);
        assert(after.chain(t, steps) =~= m.chain(s, steps));
    }
}

/// After the filter, with directories as they are compared, a file that is left has the path that it
/// had, and that path lies in none of the excluded directories. The file is fewer levels deep than
/// paths are followed.
pub proof fn law_filter_keeps_paths(m: VolumeModel, dirs: Seq<Seq<char>>, f: u64)
    requires
        m.wf(),
        m.addressable(),
        all_bare(dirs),
        removed_all(m, excluded_frns(m, dirs, m.entries.len() as int)).live().contains_key(f),
        m.chain(m.frn_map[f] as int, model::MAX_DEPTH as nat).len() < model::MAX_DEPTH,
    ensures
        ({
            let after = removed_all(m, excluded_frns(m, dirs, m.entries.len() as int));
            let path = after.path(after.frn_map[f] as int);
            path == m.path(m.frn_map[f] as int) && !lies_in_any(path, dirs)
        }),
{
    law_filter_keeps_the_rest(m, dirs, f);
    lemma_filtered_chain(m, dirs, f, model::MAX_DEPTH as nat);
    lemma_removed_letter(m, excluded_frns(m, dirs, m.entries.len() as int));
}

/// No entry of a volume lies in one of the excluded directories.
pub open spec fn none_excluded(m: VolumeModel, dirs: Seq<Seq<char>>) -> bool {
    forall|s: int| #![trigger m.entries[s]]
        0 <= s < m.entries.len() ==> !lies_in_any(m.full_path(s), dirs)
}

/// The index of a volume by its file table: every file has a number, and is fewer levels deep than
/// paths are followed.
pub open spec fn is_table(m: VolumeModel) -> bool {
    &&& m.wf()
    &&& m.addressable()
    &&& laws::all_numbered(m)
    &&& forall|s: int| #![trigger m.entries[s]]
        0 <= s < m.entries.len() ==> m.chain(s, model::MAX_DEPTH as nat).len() < model::MAX_DEPTH
}

proof fn lemma_removed_numbered(m: VolumeModel, frns: Seq<u64>)
    requires
        m.wf(),
        m.addressable(),
        laws::all_numbered(m),
    ensures
        laws::all_numbered(removed_all(m, frns)),
    decreases frns.len(),
{
    if frns.len() > 0 {
        let rest = frns.drop_last();
        lemma_removed_all(m, rest);
        lemma_removed_numbered(m, rest);
        let before = removed_all(m, rest);
        let after = removed_all(m, frns);
        if frns.last() != 0 && before.frn_map.contains_key(frns.last()) {
            let slot = before.frn_map[frns.last()] as int;
            let last = before.entries.len() - 1;
            let t = before.take_out(frns.last());
            assert forall|s: int| #![trigger after.entries[s]] #![trigger after.frns[s]]
                0 <= s < after.entries.len() implies after.frns[s] != 0 && !types::has_flag(
                after.entries[s].flags,
                FLAG_IS_PATH,
            ) by {
                let from = if s == slot {
                    last
                } else {
                    s
                };
                assert(t.entries[s] == before.entries[from]);
                assert(t.frns[s] == before.frns[from]);
                assert(after.frns[s] == t.frns[s]);
                assert(after.entries[s].flags == t.entries[s].flags);
            }
        }
    }
}

/// After the filter, with directories as they are compared, no entry of a volume that was indexed by
/// its file table lies in one of the excluded directories.
pub proof fn law_filter_leaves_none_excluded(m: VolumeModel, dirs: Seq<Seq<char>>)
    requires
        is_table(m),
        all_bare(dirs),
    ensures
        none_excluded(removed_all(m, excluded_frns(m, dirs, m.entries.len() as int)), dirs),
{
    let frns = excluded_frns(m, dirs, m.entries.len() as int);
    let after = removed_all(m, frns);
    lemma_removed_all(m, frns);
    lemma_removed_numbered(m, frns);
    assert forall|s: int| #![trigger after.entries[s]] 0 <= s < after.entries.len() implies
        !lies_in_any(after.full_path(s), dirs) by {
        let f = after.frns[s];
        assert(f != 0);
        assert(after.frn_map.contains_key(f) && after.frn_map[f] == s);
        assert(after.live().contains_key(f));
        assert(m.live().contains_key(f));
        let from = m.frn_map[f] as int;
        assert(m.node(from) == m.live()[f]);
        law_filter_keeps_paths(m, dirs, f);
    }
}

/// The index with a path that was found by walking, unless it lies in one of the directories.
pub open spec fn with_found(
    m: VolumeModel,
    path: Seq<char>,
    is_dir: bool,
    dirs: Seq<Seq<char>>,
) -> VolumeModel {
    if lies_in_any(path, dirs) {
        m
    } else {
        m.push_path(
            text::utf16(path),
            is_dir,
            py::name_spelling(model::file_part(text::utf16(path))),
        )
    }
}

/// Takes a path that was found by walking into the index of its volume, unless it lies in one of the
/// excluded directories.
pub fn take_found(vi: &mut VolumeIndex, path: &str, is_dir: bool, excluded: &[String])
    requires
        old(vi)@.inv(),
        old(vi)@.entries.len() < u32::MAX,
    ensures
        final(vi)@ == with_found(old(vi)@, path@, is_dir, text::texts(excluded@)),
        final(vi)@.inv(),
        old(vi)@.wf() ==> final(vi)@.wf(),
        none_excluded(old(vi)@, text::texts(excluded@)) && old(vi)@.addressable() && text::utf16(
            path@,
        ).len() <= u16::MAX ==> none_excluded(final(vi)@, text::texts(excluded@)),
        history::in_order(old(vi)@) && history::is_short_enough(
            text::utf16(path@),
            model::file_part(text::utf16(path@)),
        ) && final(vi)@.addressable() ==> history::in_order(final(vi)@),
{
    if is_excluded_prefix(path, excluded) {
        return ;
    }
    vi.push_path_entry(path, is_dir);
    proof {
        let dirs = text::texts(excluded@);
        if none_excluded(old(vi)@, dirs) && old(vi)@.addressable() && text::utf16(path@).len()
            <= u16::MAX {
            lemma_found_none_excluded(
                old(vi)@,
                path@,
                is_dir,
                py::name_spelling(model::file_part(text::utf16(path@))),
                dirs,
            );
        }
    }
}

proof fn lemma_found_none_excluded(
    m: VolumeModel,
    path: Seq<char>,
    is_dir: bool,
    py: Option<Seq<u16>>,
    dirs: Seq<Seq<char>>,
)
    requires
        m.inv(),
        m.addressable(),
        text::utf16(path).len() <= u16::MAX,
        none_excluded(m, dirs),
        !lies_in_any(path, dirs),
    ensures
        none_excluded(m.push_path(text::utf16(path), is_dir, py), dirs),
{
    let units = text::utf16(path);
    let n = m.push_path(units, is_dir, py);
    let last = m.entries.len() as int;
    laws::law_path_entry_flags(m, units, is_dir, py);
    text::law_utf16_round_trip(path);
    assert forall|s: int| #![trigger m.entries[s]] 0 <= s < m.entries.len() implies
        n.entries[s].parent == m.entries[s].parent && n.name_of(n.entries[s]) == m.name_of(
        m.entries[s],
    ) by {
        assert(m.name_in_pool(m.entries[s]));
        assert(n.name_of(m.entries[s]) =~= m.name_of(m.entries[s]));
    }
    assert forall|s: int| #![trigger n.entries[s]] 0 <= s < n.entries.len() implies !lies_in_any(
        n.full_path(s),
        dirs,
    ) by {
        if s == last {
            assert(n.entries.last() == n.entries[s]);
            assert(n.name_of(n.entries[s]) =~= units);
        } else {
            assert(n.entries[s] == m.entries[s]);
            laws::lemma_chain_same(m, n, s, model::MAX_DEPTH as nat);
            assert(n.full_path(s) == m.full_path(s));
        }
    }
}

/// The names of the directories of a user that are walked.
pub open spec fn user_dirs() -> Seq<Seq<char>> {
    seq!["Desktop"@, "Documents"@, "Downloads"@, "Pictures"@, "Videos"@, "Music"@]
}

/// The directories that are walked on the drive of the home directory, where the drive itself
/// cannot be read; those that do not exist are left out by the caller.
pub fn degraded_roots(home: &str) -> (r: Vec<String>)
    ensures
        text::texts(r@) == user_dirs().map_values(|d: Seq<char>| home@ + "\\"@ + d),
{
    let base = concat(home, "\\");
    let mut out: Vec<String> = Vec::new();
    assert(text::texts(out@) =~= seq![]);
    push_text(&mut out, concat(base.as_str(), "Desktop").as_str());
    push_text(&mut out, concat(base.as_str(), "Documents").as_str());
    push_text(&mut out, concat(base.as_str(), "Downloads").as_str());
    push_text(&mut out, concat(base.as_str(), "Pictures").as_str());
    push_text(&mut out, concat(base.as_str(), "Videos").as_str());
    push_text(&mut out, concat(base.as_str(), "Music").as_str());
    assert(text::texts(out@) =~= user_dirs().map_values(|d: Seq<char>| home@ + "\\"@ + d));
    out
}

/// Whether a drive is walked: it is there, not disabled, not indexed by its file table already,
/// and, where file tables can be read at all, a fixed disk.
pub open spec fn is_walked(
    d: char,
    present: Seq<char>,
    built: Seq<char>,
    disabled: Seq<char>,
    is_admin: bool,
    fixed: Seq<char>,
) -> bool {
    !disabled.contains(d) && present.contains(d) && !built.contains(d) && (!is_admin
        || fixed.contains(d))
}

/// The drives among the first `n` letters that are walked.
pub open spec fn walked_of(
    n: int,
    present: Seq<char>,
    built: Seq<char>,
    disabled: Seq<char>,
    is_admin: bool,
    fixed: Seq<char>,
) -> Seq<char>
    decreases n,
{
    if n <= 0 {
        seq![]
    } else {
        let rest = walked_of(n - 1, present, built, disabled, is_admin, fixed);
        let d = volume::letter_at(n - 1);
        if is_walked(d, present, built, disabled, is_admin, fixed) {
            rest.push(d)
        } else {
            rest
        }
    }
}

/// The drives that are walked.
pub fn walk_letters(
    present: &[char],
    built: &[char],
    disabled: &[char],
    is_admin: bool,
    fixed: &[char],
) -> (r: Vec<char>)
    ensures
        r@ == walked_of(26, present@, built@, disabled@, is_admin, fixed@),
{
    let mut out: Vec<char> = Vec::new();
    for i in 0..26u8
        invariant
            out@ == walked_of(i as int, present@, built@, disabled@, is_admin, fixed@),
    {
        let d = drive_letter(i);
        if !chars_contain(disabled, d) && chars_contain(present, d) && !chars_contain(built, d) && (
        !is_admin || chars_contain(fixed, d)) {
            out.push(d);
        }
    }
    out
}

/// The texts of a list that begin with `C`.
pub open spec fn on_drive_c(roots: Seq<Seq<char>>) -> Seq<Seq<char>>
    decreases roots.len(),
{
    if roots.len() == 0 {
        seq![]
    } else {
        let rest = on_drive_c(roots.drop_last());
        if roots.last().len() > 0 && roots.last()[0] == 'C' {
            rest.push(roots.last())
        } else {
            rest
        }
    }
}

/// Where the walk of a drive starts: on `C` at directories of the user (nowhere, if its file table
/// can be read), on other drives at the root.
pub open spec fn roots_of(d: char, is_admin: bool, degraded: Seq<Seq<char>>) -> Seq<Seq<char>> {
    if d != 'C' {
        seq![seq![d, ':', '\\']]
    } else if is_admin {
        seq![]
    } else {
        on_drive_c(degraded)
    }
}

/// Where the walk of a drive starts.
pub fn walk_roots(d: char, is_admin: bool, degraded: &[String]) -> (r: Vec<String>)
    ensures
        text::texts(r@) == roots_of(d, is_admin, text::texts(degraded@)),
{
    let mut out: Vec<String> = Vec::new();
    assert(text::texts(out@) =~= seq![]);
    if d != 'C' {
        let mut root = String::new();
        root.push(d);
        root.push(':');
        root.push('\\');
        assert(root@ =~= seq![d, ':', '\\']);
        out.push(root);
        assert(text::texts(out@) =~= seq![seq![d, ':', '\\']]);
    } else if !is_admin {
        let ghost all = text::texts(degraded@);
        assert(all.take(0) =~= seq![]);
        for i in 0..degraded.len()
            invariant
                all == text::texts(degraded@),
                text::texts(out@) == on_drive_c(all.take(i as int)),
        {
            assert(all.take(i + 1).drop_last() =~= all.take(i as int));
            assert(all.take(i + 1).last() == degraded@[i as int]@);
            let chars = chars_of(degraded[i].as_str());
            if chars.len() > 0 && chars[0] == 'C' {
                push_text(&mut out, degraded[i].as_str());
            }
        }
        assert(all.take(all.len() as int) =~= all);
    }
    out
}

/// What a journal loop does next.
#[derive(Clone, Copy, Debug, PartialEq, Eq, Structural)]
pub enum LoopStep {
    /// Read on from the cursor.
    Read,
    /// Store a snapshot, and read on.
    Save,
    /// Index the volume anew.
    Rebuild,
    /// Wait a while, and read on.
    Wait,
    /// Stop listening.
    Stop,
}

/// The loop that follows the journal of one volume.
#[derive(Clone, Copy, Debug, PartialEq, Eq, Structural)]
pub struct JournalLoop {
    pub letter: char,
    pub journal_id: u64,
    /// The journal position from which is read next.
    pub cursor: i64,
    /// Changes were made since the last snapshot.
    pub dirty: bool,
}

/// Whether a snapshot is due: there are changes, and the last one was long enough ago.
pub open spec fn save_due(dirty: bool, since_save_ns: u128) -> bool {
    dirty && since_save_ns > SAVE_AFTER_NS
}

/// The volumes after a batch of records for one of them.
pub open spec fn with_records(
    volumes: Seq<VolumeModel>,
    i: int,
    records: Seq<usn::UpdateModel>,
    next: i64,
) -> Seq<VolumeModel> {
    volumes.update(i, VolumeModel { next_usn: next, ..usn::applied(volumes[i], records) })
}

/// What a loop does that has nothing else to do: it saves where a snapshot is due, and reads on.
pub open spec fn save_or_go_on(state: JournalLoop, since_save_ns: u128) -> (JournalLoop, LoopStep) {
    if save_due(state.dirty, since_save_ns) {
        (JournalLoop { dirty: false, ..state }, LoopStep::Save)
    } else {
        (state, LoopStep::Read)
    }
}

/// A loop, the volumes, what is done next and how many changes were made after a batch of records.
pub open spec fn after_records(
    state: JournalLoop,
    volumes: Seq<VolumeModel>,
    records: Seq<usn::UpdateModel>,
    next: i64,
    since_save_ns: u128,
) -> (JournalLoop, Seq<VolumeModel>, LoopStep, nat) {
    let read = JournalLoop { cursor: next, ..state };
    if records.len() == 0 {
        let (after, step) = save_or_go_on(read, since_save_ns);
        (after, volumes, step, 0)
    } else {
        match volume_from(volumes, state.letter, 0) {
            Some(i) => {
                let count = usn::change_count(volumes[i], records);
                let (after, step) = save_or_go_on(
                    JournalLoop { dirty: state.dirty || count > 0, ..read },
                    since_save_ns,
                );
                (after, with_records(volumes, i, records, next), step, count)
            },
            None => (state, volumes, LoopStep::Stop, 0),
        }
    }
}

/// A loop, and what is done next, after nothing could be read.
pub open spec fn after_error(state: JournalLoop, error: UsnError, since_save_ns: u128) -> (
    JournalLoop,
    LoopStep,
) {
    match error {
        UsnError::Timeout => save_or_go_on(state, since_save_ns),
        UsnError::JournalDeleted => (state, LoopStep::Rebuild),
        UsnError::Io(_) => (state, LoopStep::Wait),
    }
}

/// A loop, the volumes, and what is done next after the volume was indexed anew, or could not be.
pub open spec fn after_rebuilding(
    state: JournalLoop,
    volumes: Seq<VolumeModel>,
    rebuilt: Option<VolumeModel>,
) -> (JournalLoop, Seq<VolumeModel>, LoopStep) {
    match rebuilt {
        Some(m) => (
            JournalLoop { journal_id: m.journal_id, cursor: m.next_usn, ..state },
            without(volumes, state.letter, false).push(m),
            LoopStep::Read,
        ),
        None => (state, volumes, LoopStep::Stop),
    }
}

impl JournalLoop {
    fn save_or_read(&mut self, since_save_ns: u128) -> (r: LoopStep)
        ensures
            (*final(self), r) == save_or_go_on(*old(self), since_save_ns),
    {
        if self.dirty && since_save_ns > SAVE_AFTER_NS {
            self.dirty = false;
            LoopStep::Save
        } else {
            LoopStep::Read
        }
    }

    /// A batch of records was read, and the position that follows it. The records are applied to
    /// the volume; if it is gone, the loop stops. Yields also how many changes were made.
    pub fn on_records(
        &mut self,
        index: &mut Index,
        records: &[UsnUpdate],
        next: i64,
        since_save_ns: u128,
    ) -> (r: (LoopStep, usize))
        requires
            all_wf(old(index)@),
            forall|v: int| #![trigger old(index)@[v]]
                0 <= v < old(index)@.len() ==> old(index)@[v].entries.len() + records@.len()
                    <= u32::MAX,
            records@.len() * 2 <= usize::MAX,
        ensures
            all_wf(final(index)@),
            (*final(self), final(index)@, r.0, r.1 as nat) == after_records(
                *old(self),
                old(index)@,
                usn::update_models(records@),
                next,
                since_save_ns,
            ),
    {
        let ghost before = index@;
        let mut count: usize = 0;
        if records.len() > 0 {
            match find_volume(index, self.letter) {
                Some(i) => {
                    let ghost had = index.volumes@;
                    assert(before[i as int] == had[i as int]@);
                    proof {
                        usn::lemma_inserts_bounded(usn::update_models(records@));
                    }
                    let v = &mut index.volumes[i];
                    count = apply_updates(v, records);
                    v.next_usn = next;
                    proof {
                        let updates = usn::update_models(records@);
                        assert(index@ =~= with_records(before, i as int, updates, next));
                        assert forall|k: int| #![trigger index@[k]] 0 <= k < index@.len() implies
                            index@[k].wf() by {
                            assert(before[k].wf());
                        }
                    }
                },
                None => {
                    return (LoopStep::Stop, 0);
                },
            }
            if count > 0 {
                self.dirty = true;
            }
        }
        self.cursor = next;
        (self.save_or_read(since_save_ns), count)
    }

    /// Nothing could be read. A timeout only gives the chance to save; a journal that was deleted
    /// has the volume indexed anew; on any other error the loop waits.
    pub fn on_error(&mut self, error: &UsnError, since_save_ns: u128) -> (r: LoopStep)
        ensures
            (*final(self), r) == after_error(*old(self), *error, since_save_ns),
    {
        match error {
            UsnError::Timeout => self.save_or_read(since_save_ns),
            UsnError::JournalDeleted => LoopStep::Rebuild,
            UsnError::Io(_) => LoopStep::Wait,
        }
    }

    /// The volume was indexed anew, or could not be. Listening goes on at the position with which
    /// the new index is aligned.
    pub fn on_rebuilt(&mut self, index: &mut Index, rebuilt: Option<VolumeIndex>) -> (r: LoopStep)
        requires
            all_wf(old(index)@),
            rebuilt matches Some(v) ==> v@.wf() && v@.letter == old(self).letter,
        ensures
            all_wf(final(index)@),
            (*final(self), final(index)@, r) == after_rebuilding(
                *old(self),
                old(index)@,
                match rebuilt {
                    Some(v) => Some(v@),
                    None => None,
                },
            ),
    {
        match rebuilt {
            Some(v) => {
                self.journal_id = v.journal_id;
                self.cursor = v.next_usn;
                replace_volume(index, v, false);
                LoopStep::Read
            },
            None => LoopStep::Stop,
        }
    }
}

} // verus!
