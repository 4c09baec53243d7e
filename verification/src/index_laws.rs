//! What the index of a volume holds after it was changed, and what its paths and spellings are.

use vstd::prelude::*;

use crate::index;
use crate::key_laws;
use crate::laws;
use crate::model;
use crate::model::VolumeModel;
use crate::py;
use crate::search_laws;
use crate::text;
use crate::text_laws;
use crate::text_laws::same_unit;
use crate::types::Entry;

verus! {

/// The units are those of a text, but for the case of ASCII letters.
pub open spec fn is_named(units: Seq<u16>, name: Seq<char>) -> bool {
    let want = text::utf16(name);
    units.len() == want.len() && forall|i: int| #![trigger units[i]]
        0 <= i < units.len() ==> same_unit(units[i], want[i])
}

proof fn lemma_named(units: Seq<u16>, name: Seq<char>)
    ensures
        is_named(units, name) <==> text::fold_units(units) == text::utf16(text::ascii_lower(name)),
{
    search_laws::lemma_query_folds(name);
    let want = text::utf16(name);
    let a = text::fold_units(units);
    let b = text::fold_units(want);
    if a == b {
        assert(units.len() == a.len() && want.len() == b.len());
        assert forall|i: int| #![trigger units[i]] 0 <= i < units.len() implies same_unit(
            units[i],
            want[i],
        ) by {
            assert(a[i] == b[i]);
            text_laws::law_folding(units[i], want[i]);
        }
    }
    if is_named(units, name) {
        assert forall|i: int| 0 <= i < units.len() implies a[i] == b[i] by {
            assert(same_unit(units[i], want[i]));
            text_laws::law_folding(units[i], want[i]);
        }
        assert(a =~= b);
    }
}

/// A slot holds a directory (bit 0) of a name under a parent.
pub open spec fn holds_dir(m: VolumeModel, s: int, parent: u64, name: Seq<char>) -> bool {
    &&& 0 <= s < m.entries.len()
    &&& m.entries[s].parent == parent
    &&& m.entries[s].flags & 1 != 0
    &&& is_named(m.name_of(m.entries[s]), name)
}

/// The directory of a name under a parent is the first slot that holds one.
pub proof fn law_directory_by_name(m: VolumeModel, parent: u64, name: Seq<char>, from: int)
    requires
        0 <= from,
    ensures
        match m.find_dir(parent, name, from) {
            Some(s) => from <= s && holds_dir(m, s, parent, name) && forall|t: int|
                #![trigger holds_dir(m, t, parent, name)]
                from <= t < s ==> !holds_dir(m, t, parent, name),
            None => forall|t: int| #![trigger holds_dir(m, t, parent, name)]
                from <= t ==> !holds_dir(m, t, parent, name),
        },
    decreases m.entries.len() - from,
{
    if from < m.entries.len() {
        lemma_named(m.name_of(m.entries[from]), name);
        law_directory_by_name(m, parent, name, from + 1);
    }
}

/// A path leads from a directory, name by name, to the directory of its last name.
pub proof fn law_directory_by_path(m: VolumeModel, from: u64, name: Seq<char>, rest: Seq<Seq<char>>)
    ensures
        m.frn_of_path(from, seq![]) == Some(from),
        (forall|t: int| #![trigger holds_dir(m, t, from, name)] !holds_dir(m, t, from, name))
            ==> m.frn_of_path(from, seq![name] + rest) is None,
        forall|s: int| #![trigger holds_dir(m, s, from, name)]
            holds_dir(m, s, from, name) && (forall|t: int| #![trigger holds_dir(m, t, from, name)]
                0 <= t < s ==> !holds_dir(m, t, from, name)) ==> m.frn_of_path(
                from,
                seq![name] + rest,
            ) == m.frn_of_path(m.frns[s], rest),
{
    let path = seq![name] + rest;
    assert(path.drop_first() =~= rest);
    assert(path.first() == name);
    law_directory_by_name(m, from, name, 0);
    assert forall|s: int| #![trigger holds_dir(m, s, from, name)]
        holds_dir(m, s, from, name) && (forall|t: int| #![trigger holds_dir(m, t, from, name)]
            0 <= t < s ==> !holds_dir(m, t, from, name)) implies m.frn_of_path(from, path)
        == m.frn_of_path(m.frns[s], rest) by {
        let found = m.find_dir(from, name, 0);
        assert(found is Some);
        assert(found->0 == s);
    }
}

/// A set holds with the number of a directory those of all that is in it.
pub open spec fn is_closed(m: VolumeModel, set: Set<u64>) -> bool {
    forall|s: int| #![trigger m.frns[s]]
        0 <= s < m.entries.len() && m.frns[s] != 0 && set.contains(m.entries[s].parent)
            ==> set.contains(m.frns[s])
}

/// A directory is one to which one of the paths leads from the root directory, number 5.
pub open spec fn is_root_of(m: VolumeModel, paths: Seq<Seq<Seq<char>>>, d: u64) -> bool {
    exists|i: int| #![trigger paths[i]]
        0 <= i < paths.len() && m.frn_of_path(5, paths[i]) == Some(d)
}

/// Marking the start menu changes nothing where no path leads anywhere. Otherwise it notes the
/// directories that were found and all that is below them, and nothing else, and sets bit 3 of the
/// flags of everything whose parent was noted, and of nothing else; all else stays.
pub proof fn law_start_menu_is_marked(m: VolumeModel, paths: Seq<Seq<Seq<char>>>, set: Set<u64>)
    requires
        m.frns.len() == m.entries.len(),
    ensures
        ({
            let n = m.mark_start_menu(paths);
            &&& (forall|d: u64| #![trigger is_root_of(m, paths, d)] !is_root_of(m, paths, d)) ==> n == m
            &&& (exists|d: u64| is_root_of(m, paths, d)) ==> {
                &&& forall|d: u64| #![trigger is_root_of(m, paths, d)]
                    is_root_of(m, paths, d) ==> n.start_menu.contains(d)
                &&& is_closed(m, n.start_menu)
                &&& is_closed(m, set) && (forall|d: u64| #![trigger is_root_of(m, paths, d)]
                    is_root_of(m, paths, d) ==> set.contains(d)) ==> n.start_menu.subset_of(set)
                &&& n.entries.len() == m.entries.len()
                &&& forall|s: int| #![trigger n.entries[s]]
                    0 <= s < n.entries.len() ==> n.entries[s] == (Entry {
                        flags: if n.start_menu.contains(m.entries[s].parent) {
                            m.entries[s].flags | 8
                        } else {
                            m.entries[s].flags
                        },
                        ..m.entries[s]
                    })
                &&& n.frns == m.frns && n.frn_map == m.frn_map && n.names == m.names && n.pys == m.pys
            }
        }),
{
    let roots = m.found_dirs(paths);
    let n = m.mark_start_menu(paths);
    assert forall|d: u64| roots.contains(d) <==> #[trigger] is_root_of(m, paths, d) by {}
    if exists|d: u64| is_root_of(m, paths, d) {
        let d = choose|d: u64| is_root_of(m, paths, d);
        assert(roots.contains(d));
        assert(n.start_menu == m.subtree(roots));
        assert forall|d: u64| #![trigger is_root_of(m, paths, d)] is_root_of(m, paths, d) implies
            n.start_menu.contains(d) by {
            assert(m.below(roots, 0).contains(d));
        }
        assert forall|s: int| #![trigger m.frns[s]] 0 <= s < m.entries.len() && m.frns[s] != 0
            && n.start_menu.contains(m.entries[s].parent) implies n.start_menu.contains(m.frns[s]) by {
            laws::lemma_subtree_step(m, roots, s);
        }
        if is_closed(m, set) && (forall|d: u64| #![trigger is_root_of(m, paths, d)]
            is_root_of(m, paths, d) ==> set.contains(d)) {
            assert(roots.subset_of(set)) by {
                assert forall|f: u64| roots.contains(f) implies set.contains(f) by {
                    assert(is_root_of(m, paths, f));
                }
            }
            laws::lemma_closed_subtree(m, roots, set);
        }
    } else {
        assert forall|f: u64| !roots.contains(f) by {
            assert(!is_root_of(m, paths, f));
        }
    }
}

/// What comes into an index below a directory of the start menu, or is one, gets bit 3 of its flags,
/// and nothing else does.
pub proof fn law_start_menu_grows(
    m: VolumeModel,
    frn: u64,
    parent: u64,
    name: Seq<u16>,
    is_dir: bool,
    py: Option<Seq<u16>>,
)
    requires
        m.inv(),
        m.frn_map.contains_key(frn) || m.entries.len() < u32::MAX,
        !(m.frn_map.contains_key(frn) && name.contains(0x7E) && !m.name_of(
            m.entries[m.frn_map[frn] as int],
        ).contains(0x7E)),
    ensures
        ({
            let n = m.upsert(frn, parent, name, is_dir, py);
            let e = n.entries[n.frn_map[frn] as int];
            &&& e.parent == parent
            &&& (e.flags & 8 != 0) <==> m.start_menu.contains(parent) || m.start_menu.contains(frn)
            &&& (e.flags & 1 != 0) <==> is_dir
            &&& (e.flags & 4 != 0) <==> name.len() > 0 && name[0] == 0x24
            &&& (e.flags & 16 != 0) <==> e.py_len > 0
            &&& n.start_menu == m.start_menu
        }),
{
    laws::law_stored_name_decides_flags(m, frn, parent, name, is_dir, py);
    laws::law_ntfs_entry_flags(m, frn, parent, name, is_dir, py);
}

/// The path of an entry without a directory in the index, or in the root directory, number 5, is its
/// name behind the drive; that of any other is its name behind the path of its directory, with one
/// `\` between them. The directory is fewer than 128 levels deep.
pub proof fn law_paths_are_put_together(m: VolumeModel, s: int)
    requires
        0 <= s < m.entries.len(),
        m.name_of(m.entries[s]).len() > 0,
    ensures
        ({
            let up = m.entries[s].parent;
            let name = text::utf16_lossy(m.name_of(m.entries[s]));
            if up == 0 || up == 5 || !m.frn_map.contains_key(up) {
                m.path(s) == seq![m.letter, ':', '\\'] + name
            } else {
                let dir = m.frn_map[up] as int;
                m.chain(dir, 128).len() < 128 ==> if m.path(dir).last() == '\\' {
                    m.path(s) == m.path(dir) + name
                } else {
                    m.path(s) == m.path(dir) + seq!['\\'] + name
                }
            }
        }),
{
    let up = m.entries[s].parent;
    if up == 0 || up == 5 || !m.frn_map.contains_key(up) {
        laws::law_path_of_top_level(m, s);
    } else {
        let dir = m.frn_map[up] as int;
        if m.chain(dir, 128).len() < 128 {
            laws::law_path_of_child(m, s);
            lemma_path_not_empty(m.letter, m.chain(dir, 128));
            assert(m.path(dir).push('\\') =~= m.path(dir) + seq!['\\']);
        }
    }
}

proof fn lemma_path_not_empty(letter: char, parts: Seq<Seq<u16>>)
    ensures
        model::drive_path(letter, parts).len() >= 3,
    decreases parts.len(),
{
    if parts.len() > 0 {
        lemma_path_not_empty(letter, parts.drop_first());
    }
}

/// The names on the way up are counted one by one: an entry alone where it has no directory in the
/// index, or is in the root directory, and one more than its directory otherwise, up to 128.
pub proof fn law_levels(m: VolumeModel, s: int, steps: nat)
    requires
        0 <= s < m.entries.len(),
        steps > 0,
    ensures
        ({
            let up = m.entries[s].parent;
            m.chain(s, steps).len() == if up == 0 || up == 5 || !m.frn_map.contains_key(up) {
                1
            } else {
                1 + m.chain(m.frn_map[up] as int, (steps - 1) as nat).len()
            }
        }),
        m.chain(s, 0).len() == 0,
{
}

/// A removal packs the pools once more than a quarter of what is left was removed since they were
/// packed last, and only counts itself otherwise.
pub proof fn law_removals_are_packed(m: VolumeModel, frn: u64)
    requires
        m.wf(),
        m.frn_map.contains_key(frn),
    ensures
        ({
            let n = m.remove(frn);
            let left = m.entries.len() - 1;
            &&& n.entries.len() == left
            &&& (m.deleted + 1) * 4 > left ==> n.deleted == 0
            &&& (m.deleted + 1) * 4 <= left ==> n.deleted == m.deleted + 1 && n.names == m.names && n.pys
                == m.pys
        }),
{
    laws::lemma_remove_sizes(m, frn);
}

/// A path that is put into an index comes behind what is there: as a path (bit 1), a directory (bit 0)
/// exactly where it is one, neither a system file nor of the start menu, and without a number. What
/// was there stays.
pub proof fn law_path_is_indexed(m: VolumeModel, path: Seq<u16>, is_dir: bool, py: Option<Seq<u16>>)
    requires
        m.inv(),
        m.addressable(),
        path.len() <= u16::MAX,
    ensures
        ({
            let n = m.push_path(path, is_dir, py);
            let last = m.entries.len() as int;
            let e = n.entries[last];
            &&& n.entries.len() == last + 1
            &&& n.name_of(e) == path
            &&& e.flags & 2 != 0
            &&& (e.flags & 1 != 0) <==> is_dir
            &&& e.flags & 4 == 0
            &&& e.flags & 8 == 0
            &&& (e.flags & 16 != 0) <==> e.py_len > 0
            &&& e.parent == 0
            &&& n.frns == m.frns.push(0)
            &&& n.frn_map == m.frn_map
            &&& n.start_menu == m.start_menu
            &&& forall|s: int| #![trigger n.entries[s]]
                0 <= s < last ==> n.entries[s] == m.entries[s] && n.name_of(n.entries[s]) == m.name_of(
                    m.entries[s],
                )
        }),
{
    let n = m.push_path(path, is_dir, py);
    let last = m.entries.len() as int;
    laws::law_path_entry_flags(m, path, is_dir, py);
    assert(n.entries.last() == n.entries[last]);
    assert(n.name_of(n.entries[last]) =~= path);
    assert forall|s: int| #![trigger n.entries[s]] 0 <= s < last implies n.entries[s] == m.entries[s]
        && n.name_of(n.entries[s]) == m.name_of(m.entries[s]) by {
        assert(n.entries[s] == m.entries[s]);
        assert(m.name_in_pool(m.entries[s]));
        assert(n.name_of(m.entries[s]) =~= m.name_of(m.entries[s]));
    }
}

/// A new index is empty.
pub proof fn law_new_index(letter: char, is_ntfs: bool)
    ensures
        ({
            let m = VolumeModel::empty(letter, is_ntfs);
            &&& m.letter == letter
            &&& m.is_ntfs == is_ntfs
            &&& m.entries.len() == 0
            &&& m.journal_id == 0
            &&& m.next_usn == 0
            &&& forall|f: u64| !#[trigger] m.live().contains_key(f)
            &&& forall|f: u64| !#[trigger] m.start_menu.contains(f)
        }),
{
}

/// The entries of an index are those of its volumes together.
pub proof fn law_entries_add_up(volumes: Seq<VolumeModel>, m: VolumeModel)
    ensures
        index::entry_count(seq![]) == 0,
        index::entry_count(volumes.push(m)) == index::entry_count(volumes) + m.entries.len(),
{
    assert(volumes.push(m).drop_last() =~= volumes);
}

/// Chinese characters are those of the blocks from U+3400 to U+9FFF, from U+F900 to U+FAFF and from
/// U+20000 to U+2FA1F.
pub proof fn law_chinese_characters(c: char)
    ensures
        py::is_cjk_char(c) <==> c as int >= 0x3400 && (c as int) < 0xA000 || c as int >= 0xF900 && (
        c as int) < 0xFB00 || c as int >= 0x20000 && (c as int) < 0x2FA20,
{
}

/// A text has a spelling exactly if one of its characters is Chinese and one has a reading. The
/// spelling is put together of those of its characters: the reading where there is one, else the
/// character, an ASCII letter in lower case.
pub proof fn law_spelling_is_put_together(
    s: Seq<char>,
    readings: Seq<Option<Seq<char>>>,
    c: char,
    reading: Option<Seq<char>>,
)
    requires
        s.len() == readings.len(),
    ensures
        py::spelling(s, readings) is Some <==> (exists|i: int| #![trigger s[i]]
            0 <= i < s.len() && py::is_cjk_char(s[i])) && (exists|i: int| #![trigger readings[i]]
            0 <= i < s.len() && readings[i] is Some),
        py::spelling(s, readings) matches Some(p) ==> p == text::utf16(py::spell(s, readings)),
        py::spell(seq![], seq![]).len() == 0,
        ({
            let more = py::spell(s.push(c), readings.push(reading));
            let n = py::spell(s, readings).len() as int;
            &&& more.take(n) == py::spell(s, readings)
            &&& reading matches Some(r) ==> more.skip(n) == r
            &&& reading is None ==> more.len() == n + 1 && key_laws::same_letter(more[n], c) && !('A'
                <= more[n] <= 'Z')
        }),
{
    if exists|i: int| #![trigger readings[i]] 0 <= i < s.len() && readings[i] is Some {
        let i = choose|i: int| #![trigger readings[i]] 0 <= i < s.len() && readings[i] is Some;
        assert(readings[i] is Some);
    }
    lemma_spell_rest(s, readings, reading);
    assert(s.push(c).drop_last() =~= s);
    let more = py::spell(s.push(c), readings.push(reading));
    let n = py::spell(s, readings).len() as int;
    assert(more.take(n) =~= py::spell(s, readings));
    if reading is Some {
        assert(more.skip(n) =~= reading->0);
    }
}

proof fn lemma_spell_rest(
    s: Seq<char>,
    readings: Seq<Option<Seq<char>>>,
    reading: Option<Seq<char>>,
)
    requires
        s.len() <= readings.len(),
    ensures
        py::spell(s, readings.push(reading)) == py::spell(s, readings),
    decreases s.len(),
{
    if s.len() > 0 {
        lemma_spell_rest(s.drop_last(), readings, reading);
    }
}

/// The spelling of a name is that of its text, with the reading of each of its characters.
pub proof fn law_spelling_of_a_name(name: Seq<u16>)
    ensures
        ({
            let s = text::utf16_lossy(name);
            let readings = Seq::new(s.len(), |i: int| py::pinyin_reading(s[i]));
            py::name_spelling(name) == py::spelling(s, readings)
        }),
{
}

/// A text holds a Chinese character exactly if one of its characters is one.
pub proof fn law_chinese_texts(s: Seq<char>, c: char)
    ensures
        !py::cjk_in(seq![]),
        py::cjk_in(s.push(c)) <==> py::cjk_in(s) || py::is_cjk_char(c),
{
    let all = s.push(c);
    if py::cjk_in(s) {
        let i = choose|i: int| 0 <= i < s.len() && py::is_cjk_char(#[trigger] s[i]);
        assert(all[i] == s[i]);
    }
    if py::is_cjk_char(c) {
        assert(py::is_cjk_char(all[s.len() as int]));
    }
    if py::cjk_in(all) {
        let i = choose|i: int| 0 <= i < all.len() && py::is_cjk_char(#[trigger] all[i]);
        if i < s.len() {
            assert(py::is_cjk_char(s[i]));
        }
    }
}

} // verus!
