//! The in-memory index: a compact array of entries, a pool of UTF-16 names, a pool of pinyin
//! spellings and a map from file reference numbers to slots.
//!
//! Each volume has a [`VolumeIndex`]:
//! - entries of an NTFS volume carry their file reference number (in `frns`, parallel to
//!   `entries`), so that journal records can be applied and paths rebuilt from the parents;
//! - entries of any other volume hold their full path (`FLAG_IS_PATH`);
//! - a name with Chinese characters also has its pinyin spelling in `pys`.

use rustc_hash::{FxHashMap, FxHashSet};
use vstd::prelude::*;
use vstd::slice::slice_subrange;

use crate::bytes::{low_u16, low_u32};
use crate::fx::{map_get, map_insert, map_len, map_remove, set_contains, set_insert};
use crate::history;
use crate::history::Op;
use crate::laws;
use crate::model;
use crate::model::{VolumeModel, MAX_DEPTH, ROOT_FRN};
use crate::py;
use crate::py::pinyin_of;
use crate::text;
use crate::types;
use crate::text::{chars_of, fold, from_utf16_lossy, string_of, to_ascii_lowercase, to_utf16};
use crate::types::{Entry, FLAG_IS_CJK, FLAG_IS_DIR, FLAG_IS_PATH, FLAG_IS_SYSTEM, FLAG_START_MENU};

verus! {

/// The index of one volume.
pub struct VolumeIndex {
    pub letter: char,
    pub is_ntfs: bool,
    /// Id of the change journal, 0 where it is unknown.
    pub journal_id: u64,
    /// Journal position up to which records were consumed.
    pub next_usn: i64,
    /// UTF-16 name pool (path entries hold their full path).
    pub names: Vec<u16>,
    /// Pool of pinyin spellings.
    pub pys: Vec<u16>,
    /// The entries; a search scans this array only.
    pub entries: Vec<Entry>,
    /// File reference numbers, parallel to `entries` (0 for path entries).
    pub frns: Vec<u64>,
    /// Slots by file reference number (NTFS volumes only).
    pub frn_map: FxHashMap<u64, u32>,
    /// The start menu `Programs` directories and everything below them; a new entry under one of
    /// them inherits the flag.
    pub start_menu_frns: FxHashSet<u64>,
    /// Removals since the pools were packed; more than a quarter of the entries packs them.
    pub deleted: usize,
}

impl View for VolumeIndex {
    type V = VolumeModel;

    open spec fn view(&self) -> VolumeModel {
        VolumeModel {
            letter: self.letter,
            is_ntfs: self.is_ntfs,
            journal_id: self.journal_id,
            next_usn: self.next_usn,
            names: self.names@,
            pys: self.pys@,
            entries: self.entries@,
            frns: self.frns@,
            frn_map: self.frn_map@,
            start_menu: self.start_menu_frns@,
            deleted: self.deleted as nat,
        }
    }
}

/// The texts of a list of paths, each a list of directory names.
pub open spec fn path_texts(paths: Seq<Vec<String>>) -> Seq<Seq<Seq<char>>> {
    paths.map_values(|p: Vec<String>| text::texts(p@))
}

/// Whether a unit occurs in a name.
fn contains_unit(name: &[u16], unit: u16) -> (r: bool)
    ensures
        r == name@.contains(unit),
{
    for i in 0..name.len()
        invariant
            forall|j: int| 0 <= j < i ==> name@[j] != unit,
    {
        if name[i] == unit {
            assert(name@[i as int] == unit);
            return true;
        }
    }
    false
}

/// The part of a path after its last `\`.
pub fn file_name_of(path: &[u16]) -> (r: &[u16])
    ensures
        r@ == model::file_part(path@),
{
    let mut i: usize = path.len();
    assert(path@.take(path@.len() as int) == path@);
    assert(path@.skip(path@.len() as int) =~= seq![]);
    while i > 0
        invariant
            i <= path@.len(),
            model::file_part(path@) == model::file_part(path@.take(i as int)) + path@.skip(i as int),
        decreases i,
    {
        let ghost head = path@.take(i as int);
        if path[i - 1] == 0x5C {
            assert(model::file_part(head) == Seq::<u16>::empty());
            assert(Seq::<u16>::empty() + path@.skip(i as int) =~= path@.subrange(
                i as int,
                path@.len() as int,
            ));
            return slice_subrange(path, i, path.len());
        }
        assert(head.drop_last() == path@.take(i - 1));
        assert(model::file_part(path@.take(i - 1)).push(head.last()) + path@.skip(i as int)
            =~= model::file_part(path@.take(i - 1)) + path@.skip(i - 1));
        i = i - 1;
    }
    assert(model::file_part(path@.take(0)) == Seq::<u16>::empty());
    assert(Seq::<u16>::empty() + path@.skip(0) =~= path@);
    path
}

/// Whether a name is the given one but for the case of its ASCII letters.
fn folds_to(name: &[u16], lower: &[u16]) -> (r: bool)
    ensures
        r == (text::fold_units(name@) == lower@),
{
    if name.len() != lower.len() {
        assert(text::fold_units(name@).len() != lower@.len());
        return false;
    }
    for i in 0..name.len()
        invariant
            name@.len() == lower@.len(),
            forall|j: int| 0 <= j < i ==> text::folded(name@[j]) == lower@[j],
    {
        if fold(name[i]) != lower[i] {
            assert(text::fold_units(name@)[i as int] != lower@[i as int]);
            return false;
        }
    }
    assert(text::fold_units(name@) =~= lower@);
    true
}

/// Appends units to a pool.
fn extend_units(pool: &mut Vec<u16>, units: &[u16])
    ensures
        final(pool)@ == old(pool)@ + units@,
{
    pool.extend_from_slice(units);
    assert(pool@ =~= old(pool)@ + units@);
}

impl VolumeIndex {
    pub fn new(letter: char, is_ntfs: bool) -> (r: VolumeIndex)
        ensures
            r@ == VolumeModel::empty(letter, is_ntfs),
            r@.wf(),
            history::in_order(r@),
    {
        VolumeIndex {
            letter,
            is_ntfs,
            journal_id: 0,
            next_usn: 0,
            names: Vec::with_capacity(1048576),
            pys: Vec::with_capacity(65536),
            entries: Vec::with_capacity(65536),
            frns: Vec::with_capacity(65536),
            frn_map: FxHashMap::default(),
            start_menu_frns: FxHashSet::default(),
            deleted: 0,
        }
    }

    pub fn len(&self) -> (r: usize)
        ensures
            r == self@.entries.len(),
    {
        self.entries.len()
    }

    /// The name of an entry.
    pub fn name_slice(&self, e: &Entry) -> (r: &[u16])
        requires
            self@.name_in_pool(*e),
        ensures
            r@ == self@.name_of(*e),
    {
        assert(self.names.len() <= usize::MAX);
        slice_subrange(
            self.names.as_slice(),
            e.name_off as usize,
            e.name_off as usize + e.name_len as usize,
        )
    }

    /// The pinyin spelling of an entry.
    pub fn py_slice(&self, e: &Entry) -> (r: &[u16])
        requires
            self@.py_in_pool(*e),
        ensures
            r@ == self@.py_of(*e),
    {
        assert(self.pys.len() <= usize::MAX);
        slice_subrange(
            self.pys.as_slice(),
            e.py_off as usize,
            e.py_off as usize + e.py_len as usize,
        )
    }

    fn push_name(&mut self, name: &[u16]) -> (r: (u32, u16))
        ensures
            final(self)@ == old(self)@.with_text(name@, None),
            r.0 as int == old(self)@.names.len() as int % 0x1_0000_0000,
            r.1 == name@.len() % 0x1_0000,
    {
        let off = low_u32(self.names.len());
        extend_units(&mut self.names, name);
        (off, low_u16(name.len()))
    }

    /// Appends the pinyin spelling of a name to its pool; (0, 0) where it has none.
    fn push_py(&mut self, name: &[u16]) -> (r: (u32, u16))
        ensures
            final(self)@ == old(self)@.with_text(seq![], py::name_spelling(name@)),
            match py::name_spelling(name@) {
                Some(p) => r.0 as int == old(self)@.pys.len() as int % 0x1_0000_0000 && r.1
                    == p.len() % 0x1_0000,
                None => r == (0u32, 0u16),
            },
            py::is_spelling_of(py::name_spelling(name@), name@),
    {
        assert(self.names@ + seq![] =~= self.names@);
        match pinyin_of(name) {
            Some(spelling) => {
                let off = low_u32(self.pys.len());
                extend_units(&mut self.pys, spelling.as_slice());
                (off, low_u16(spelling.len()))
            },
            None => (0, 0),
        }
    }

    /// Inserts or updates an NTFS entry by its file reference number. An 8.3 short name (one with
    /// `~`) does not replace a long name.
    pub fn upsert(&mut self, frn: u64, parent: u64, name: &[u16], is_dir: bool)
        requires
            old(self)@.inv(),
            old(self)@.frn_map.contains_key(frn) || old(self)@.entries.len() < u32::MAX,
        ensures
            final(self)@ == old(self)@.upsert(
                frn,
                parent,
                name@,
                is_dir,
                py::name_spelling(name@),
            ),
            final(self)@.inv(),
            old(self)@.wf() && frn != 0 ==> final(self)@.wf(),
            final(self)@.pys.len() <= old(self)@.pys.len() + py::GROWTH_MAX * name@.len(),
            history::in_order(old(self)@) && frn != 0 && history::is_short_enough(name@, name@)
                && final(self)@.addressable() ==> history::in_order(final(self)@),
    {
        let ghost before = self@;
        let ghost op = Op::Upsert { frn, parent, name: name@, is_dir };
        proof {
            laws::lemma_upsert_inv(self@, frn, parent, name@, is_dir, py::name_spelling(name@));
        }
        let mut flags: u16 = 0;
        if is_dir {
            flags = flags | FLAG_IS_DIR;
        }
        if name.len() > 0 && name[0] == 0x24 {
            flags = flags | FLAG_IS_SYSTEM;
        }
        if set_contains(&self.start_menu_frns, parent) || set_contains(&self.start_menu_frns, frn) {
            flags = flags | FLAG_START_MENU;
        }
        assert(flags == self@.ntfs_flags(frn, parent, name@, is_dir));
        let new_is_short = contains_unit(name, 0x7E);

        if let Some(slot) = map_get(&self.frn_map, frn) {
            let old_entry = self.entries[slot as usize];
            assert(self@.name_in_pool(self@.entries[slot as int]));
            let old_is_short = contains_unit(self.name_slice(&old_entry), 0x7E);
            if !old_is_short && new_is_short {
                return ;
            }
            let (off, len) = self.push_name(name);
            let (py_off, py_len) = self.push_py(name);
            if py_len > 0 {
                flags = flags | FLAG_IS_CJK;
            }
            self.entries[slot as usize] = Entry {
                parent,
                name_off: off,
                py_off,
                name_len: len,
                py_len,
                flags,
            };
            assert(self@.names =~= old(self)@.names + name@);
            assert(self@ =~= old(self)@.upsert(
                frn,
                parent,
                name@,
                is_dir,
                py::name_spelling(name@),
            ));
            proof {
                if history::in_order(before) && history::can_perform(before, op) {
                    history::law_operation_keeps_order(before, op);
                }
            }
            return ;
        }
        let (off, len) = self.push_name(name);
        let (py_off, py_len) = self.push_py(name);
        if py_len > 0 {
            flags = flags | FLAG_IS_CJK;
        }
        self.entries.push(Entry { parent, name_off: off, py_off, name_len: len, py_len, flags });
        self.frns.push(frn);
        map_insert(&mut self.frn_map, frn, (self.entries.len() - 1) as u32);
        assert(self@.names =~= old(self)@.names + name@);
        assert(self@ =~= old(self)@.upsert(frn, parent, name@, is_dir, py::name_spelling(name@)));
        proof {
            if history::in_order(before) && history::can_perform(before, op) {
                history::law_operation_keeps_order(before, op);
            }
        }
    }

    /// Adds a path entry: the full path goes into the name pool, and the spelling is that of its
    /// file name, which is what a search looks at.
    pub fn push_path_entry(&mut self, full_path: &str, is_dir: bool)
        requires
            old(self)@.inv(),
            old(self)@.entries.len() < u32::MAX,
        ensures
            final(self)@ == old(self)@.push_path(
                text::utf16(full_path@),
                is_dir,
                py::name_spelling(model::file_part(text::utf16(full_path@))),
            ),
            final(self)@.inv(),
            old(self)@.wf() ==> final(self)@.wf(),
            final(self)@.pys.len() <= old(self)@.pys.len() + py::GROWTH_MAX * model::file_part(
                text::utf16(full_path@),
            ).len(),
            history::in_order(old(self)@) && history::is_short_enough(
                text::utf16(full_path@),
                model::file_part(text::utf16(full_path@)),
            ) && final(self)@.addressable() ==> history::in_order(final(self)@),
    {
        let ghost before = self@;
        let path = to_utf16(full_path);
        let ghost spelled = py::name_spelling(model::file_part(path@));
        proof {
            laws::lemma_push_path_inv(self@, path@, is_dir, spelled);
        }
        let file = file_name_of(path.as_slice());
        let mut flags: u16 = FLAG_IS_PATH;
        if is_dir {
            flags = flags | FLAG_IS_DIR;
        }
        let (off, len) = self.push_name(path.as_slice());
        let (py_off, py_len) = self.push_py(file);
        if py_len > 0 {
            flags = flags | FLAG_IS_CJK;
        }
        self.entries.push(Entry { parent: 0, name_off: off, py_off, name_len: len, py_len, flags });
        self.frns.push(0);
        assert(self@.names =~= old(self)@.names + path@);
        assert(self@ =~= old(self)@.push_path(path@, is_dir, spelled));
        proof {
            let op = Op::PushPath { path: path@, is_dir };
            if history::in_order(before) && history::can_perform(before, op) {
                history::law_operation_keeps_order(before, op);
            }
        }
    }

    /// Removes a file: the last entry moves into its slot. Tells whether it was indexed.
    pub fn remove(&mut self, frn: u64) -> (r: bool)
        requires
            old(self)@.inv(),
        ensures
            r == old(self)@.frn_map.contains_key(frn),
            final(self)@ == old(self)@.remove(frn),
            old(self)@.wf() ==> final(self)@.wf(),
            history::in_order(old(self)@) ==> history::in_order(final(self)@),
    {
        proof {
            if self@.wf() {
                laws::lemma_remove_wf(self@, frn);
            }
            if history::in_order(self@) {
                history::law_operation_keeps_order(self@, Op::Remove { frn });
            }
        }
        let slot = match map_remove(&mut self.frn_map, frn) {
            Some(slot) => slot,
            None => {
                assert(self@.frn_map =~= old(self)@.frn_map);
                return false;
            },
        };
        let ghost before = old(self)@;
        assert(before.frn_map.contains_key(frn));
        let last: usize = self.entries.len() - 1;
        if (slot as usize) != last {
            let moved_frn = self.frns[last];
            let moved_entry = self.entries[last];
            self.entries[slot as usize] = moved_entry;
            self.frns[slot as usize] = moved_frn;
            if moved_frn != 0 {
                map_insert(&mut self.frn_map, moved_frn, slot);
            }
        }
        self.entries.pop();
        self.frns.pop();
        self.deleted = self.deleted + 1;
        proof {
            assert(self@.entries =~= before.take_out(frn).entries);
            assert(self@.frns =~= before.take_out(frn).frns);
            assert(self@ =~= before.take_out(frn));
            laws::lemma_take_out_pools(before, frn);
        }
        if self.deleted > self.entries.len() / 4 {
            self.compact();
        }
        true
    }

    /// Rebuilds the pools and the map, without what removals and updates left unused.
    pub fn compact(&mut self)
        requires
            old(self)@.pools_ok(),
            old(self)@.frns.len() == old(self)@.entries.len(),
        ensures
            final(self)@ == old(self)@.compact(),
            laws::frns_distinct(old(self)@.frns) ==> final(self)@.wf(),
            history::in_order(old(self)@) ==> history::in_order(final(self)@),
    {
        let ghost before = self@;
        proof {
            if history::in_order(before) {
                history::law_operation_keeps_order(before, Op::Compact);
            }
        }
        let mut new_names: Vec<u16> = Vec::with_capacity(self.names.len());
        let mut new_pys: Vec<u16> = Vec::with_capacity(self.pys.len());
        self.frn_map.clear();
        let n: usize = self.entries.len();
        let mut i: usize = 0;
        assert(before.frns.take(0) =~= seq![]);
        while i < n
            invariant
                i <= n,
                n == before.entries.len(),
                n <= u32::MAX,
                before == old(self)@,
                before.pools_ok(),
                before.frns.len() == n,
                self.entries@.len() == n,
                new_names@ == before.packed_names(i as int),
                new_pys@ == before.packed_pys(i as int),
                self.frn_map@ == model::slot_map(before.frns.take(i as int)),
                forall|j: int| 0 <= j < i ==> #[trigger] self.entries@[j] == before.packed_entry(j),
                forall|j: int| i <= j < n ==> #[trigger] self.entries@[j] == before.entries[j],
                self@ == (VolumeModel {
                    entries: self.entries@,
                    frn_map: self.frn_map@,
                    ..before
                }),
            decreases n - i,
        {
            let mut e: Entry = self.entries[i];
            assert(e == before.entries[i as int]);
            assert(before.name_in_pool(e));
            let name_off = low_u32(new_names.len());
            extend_units(&mut new_names, self.name_slice(&e));
            let mut py_off = e.py_off;
            if e.py_len > 0 {
                py_off = low_u32(new_pys.len());
                extend_units(&mut new_pys, self.py_slice(&e));
            }
            e.name_off = name_off;
            e.py_off = py_off;
            assert(e == before.packed_entry(i as int));
            self.entries[i] = e;
            let frn = self.frns[i];
            if frn != 0 {
                map_insert(&mut self.frn_map, frn, i as u32);
            }
            assert(before.frns.take(i + 1).drop_last() == before.frns.take(i as int));
            i = i + 1;
        }
        self.names = new_names;
        self.pys = new_pys;
        self.deleted = 0;
        proof {
            assert(before.frns.take(n as int) == before.frns);
            assert(self@.entries =~= before.compact().entries);
            assert(self@ =~= before.compact());
            if laws::frns_distinct(before.frns) {
                laws::lemma_compact_wf(before);
            }
        }
    }

    /// The first slot of a directory of the given name (in lower case) under a parent.
    fn dir_slot(&self, parent: u64, lower: &[u16]) -> (r: Option<usize>)
        requires
            self@.pools_ok(),
        ensures
            forall|name: Seq<char>|
                lower@ == text::utf16(text::ascii_lower(name)) ==> match r {
                    Some(slot) => #[trigger] self@.find_dir(parent, name, 0) == Some(slot as int),
                    None => self@.find_dir(parent, name, 0) is None,
                },
            r matches Some(slot) ==> slot < self@.entries.len(),
    {
        for i in 0..self.entries.len()
            invariant
                self@.pools_ok(),
                forall|name: Seq<char>|
                    lower@ == text::utf16(text::ascii_lower(name)) ==> #[trigger] self@.find_dir(
                        parent,
                        name,
                        0,
                    ) == self@.find_dir(parent, name, i as int),
        {
            let e = self.entries[i];
            assert(self@.name_in_pool(self@.entries[i as int]));
            if e.parent == parent && e.is_dir() && folds_to(self.name_slice(&e), lower) {
                return Some(i);
            }
        }
        None
    }

    /// The file reference number of the directory at a path from the root (ASCII letters of either
    /// case).
    fn frn_of_path(&self, segments: &[String]) -> (r: Option<u64>)
        requires
            self@.pools_ok(),
            self@.frns.len() == self@.entries.len(),
        ensures
            r == self@.frn_of_path(ROOT_FRN, text::texts(segments@)),
    {
        let ghost texts = text::texts(segments@);
        let mut cur: u64 = ROOT_FRN;
        assert(texts.skip(0) == texts);
        for i in 0..segments.len()
            invariant
                self@.pools_ok(),
                self@.frns.len() == self@.entries.len(),
                texts == text::texts(segments@),
                self@.frn_of_path(ROOT_FRN, texts) == self@.frn_of_path(cur, texts.skip(i as int)),
        {
            let lower = to_utf16(to_ascii_lowercase(segments[i].as_str()).as_str());
            assert(texts.skip(i as int).first() == segments@[i as int]@);
            assert(texts.skip(i as int).drop_first() == texts.skip(i + 1));
            let found = self.dir_slot(cur, lower.as_slice());
            assert(lower@ == text::utf16(text::ascii_lower(texts[i as int])));
            match found {
                Some(slot) => {
                    assert(self@.find_dir(cur, texts[i as int], 0) == Some(slot as int));
                    cur = self.frns[slot];
                },
                None => {
                    assert(self@.find_dir(cur, texts[i as int], 0) is None);
                    return None;
                },
            }
        }
        assert(texts.skip(segments@.len() as int).len() == 0);
        Some(cur)
    }

    /// Marks the start menu `Programs` directories: finds them and flags everything below them.
    /// Each of `paths` is the list of directory names that leads from the root to one of them.
    pub fn mark_start_menu(&mut self, paths: &[Vec<String>])
        requires
            old(self)@.pools_ok(),
            old(self)@.frns.len() == old(self)@.entries.len(),
        ensures
            final(self)@ == old(self)@.mark_start_menu(path_texts(paths@)),
            old(self)@.inv() ==> final(self)@.inv(),
            old(self)@.wf() ==> final(self)@.wf(),
            history::in_order(old(self)@) ==> history::in_order(final(self)@),
    {
        let ghost before = self@;
        let ghost texts = path_texts(paths@);
        proof {
            if history::in_order(before) {
                history::law_operation_keeps_order(before, Op::MarkStartMenu { paths: texts });
            }
        }
        let ghost roots = before.found_dirs(texts);
        let mut set: FxHashSet<u64> = FxHashSet::default();
        let mut any = false;
        for i in 0..paths.len()
            invariant
                self@ == before,
                before.pools_ok(),
                before.frns.len() == before.entries.len(),
                texts == path_texts(paths@),
                forall|f: u64| #[trigger]
                    set@.contains(f) <==> exists|j: int| #![trigger texts[j]]
                        0 <= j < i && before.frn_of_path(ROOT_FRN, texts[j]) == Some(f),
                any <==> exists|f: u64| set@.contains(f),
        {
            let found = self.frn_of_path(paths[i].as_slice());
            assert(texts[i as int] == text::texts(paths@[i as int]@));
            let ghost had = set@;
            if let Some(frn) = found {
                set_insert(&mut set, frn);
                any = true;
                assert(set@.contains(frn));
            }
            assert forall|f: u64| #[trigger]
                set@.contains(f) <==> exists|j: int| #![trigger texts[j]]
                    0 <= j < i + 1 && before.frn_of_path(ROOT_FRN, texts[j]) == Some(f) by {
                if had.contains(f) {
                    let j = choose|j: int| #![trigger texts[j]]
                        0 <= j < i && before.frn_of_path(ROOT_FRN, texts[j]) == Some(f);
                    assert(0 <= j < i + 1 && before.frn_of_path(ROOT_FRN, texts[j]) == Some(f));
                }
            }
        }
        assert(set@ =~= roots);
        if !any {
            return ;
        }
        assert(roots =~= before.below(roots, 0));
        let mut grew = true;
        while grew
            invariant
                self@ == before,
                before.pools_ok(),
                before.frns.len() == before.entries.len(),
                roots.subset_of(set@),
                set@.subset_of(before.subtree(roots)),
                !grew ==> before.closed_below(set@),
            decreases
                    before.outside(set@, before.frns.len() as int),
                    if grew {
                        1int
                    } else {
                        0
                    },
        {
            let ghost start = set@;
            grew = false;
            for i in 0..self.entries.len()
                invariant
                    self@ == before,
                    before.pools_ok(),
                    before.frns.len() == before.entries.len(),
                    roots.subset_of(set@),
                    set@.subset_of(before.subtree(roots)),
                    start.subset_of(set@),
                    grew ==> before.outside(set@, before.frns.len() as int) < before.outside(
                        start,
                        before.frns.len() as int,
                    ),
                    !grew ==> set@ == start && forall|s: int| #![trigger before.frns[s]]
                        0 <= s < i && before.frns[s] != 0 && set@.contains(
                            before.entries[s].parent,
                        ) ==> set@.contains(before.frns[s]),
            {
                let frn = self.frns[i];
                if frn != 0 && set_contains(&set, self.entries[i].parent) {
                    let ghost had = set@;
                    let new = set_insert(&mut set, frn);
                    if new {
                        grew = true;
                        proof {
                            laws::lemma_outside_insert(before, had, i as int, before.frns.len() as int);
                            laws::lemma_subtree_step(before, roots, i as int);
                        }
                    }
                    assert(!new ==> set@ =~= had);
                }
            }
        }
        proof {
            laws::lemma_closed_subtree(before, roots, set@);
            assert(set@ =~= before.subtree(roots));
        }
        let n: usize = self.entries.len();
        let mut i: usize = 0;
        while i < n
            invariant
                i <= n,
                n == before.entries.len(),
                set@ == before.subtree(roots),
                self.entries@.len() == n,
                self@ == (VolumeModel { entries: self.entries@, ..before }),
                forall|j: int| 0 <= j < i ==> #[trigger] self.entries@[j] == (Entry {
                    flags: types::flag_if(
                        before.entries[j].flags,
                        FLAG_START_MENU,
                        set@.contains(before.entries[j].parent),
                    ),
                    ..before.entries[j]
                }),
                forall|j: int| i <= j < n ==> #[trigger] self.entries@[j] == before.entries[j],
            decreases n - i,
        {
            let mut e: Entry = self.entries[i];
            assert(e == before.entries[i as int]);
            if set_contains(&set, e.parent) {
                e.flags = e.flags | FLAG_START_MENU;
                self.entries[i] = e;
            }
            i = i + 1;
        }
        self.start_menu_frns = set;
        proof {
            let after = before.mark_start_menu(texts);
            assert(self@.entries =~= after.entries);
            assert(self@ =~= after);
            laws::lemma_mark_keeps(before, texts);
        }
    }

    /// The full path of the entry in a slot, found by going up from parent to parent.
    pub fn path_for_slot(&self, slot: u32) -> (r: String)
        requires
            self@.pools_ok(),
        ensures
            r@ == self@.path(slot as int),
    {
        let mut slots: Vec<usize> = Vec::with_capacity(16);
        let mut cur: usize = slot as usize;
        let mut left: u32 = MAX_DEPTH;
        let ghost whole = self@.chain(slot as int, MAX_DEPTH as nat);
        let ghost names = |s: Seq<usize>| Seq::new(
            s.len(),
            |i: int| self@.name_of(self@.entries[s[i] as int]),
        );
        while left > 0 && cur < self.entries.len()
            invariant_except_break
                left <= MAX_DEPTH,
                whole == names(slots@) + self@.chain(cur as int, left as nat),
            invariant
                self@.pools_ok(),
                names == (|s: Seq<usize>| Seq::new(
                    s.len(),
                    |i: int| self@.name_of(self@.entries[s[i] as int]),
                )),
                forall|i: int| 0 <= i < slots@.len() ==> slots@[i] < self@.entries.len(),
            ensures
                whole == names(slots@),
            decreases left,
        {
            let e = self.entries[cur];
            let ghost had = slots@;
            slots.push(cur);
            assert(names(slots@) =~= names(had).push(self@.name_of(e)));
            if e.parent == 0 || e.parent == ROOT_FRN {
                assert(whole =~= names(slots@));
                break;
            }
            match map_get(&self.frn_map, e.parent) {
                Some(up) => {
                    assert(whole =~= names(slots@) + self@.chain(up as int, (left - 1) as nat));
                    cur = up as usize;
                },
                None => {
                    assert(whole =~= names(slots@));
                    break;
                },
            }
            left = left - 1;
        }
        let mut out: Vec<char> = Vec::with_capacity(96);
        out.push(self.letter);
        out.push(':');
        out.push('\\');
        let mut i: usize = slots.len();
        assert(whole.skip(i as int) =~= seq![]);
        assert(out@ =~= model::drive_path(self.letter, whole.skip(i as int)));
        while i > 0
            invariant
                i <= slots@.len(),
                self@.pools_ok(),
                whole.len() == slots@.len(),
                forall|j: int| #![trigger whole[j]]
                    0 <= j < slots@.len() ==> slots@[j] < self@.entries.len() && whole[j]
                        == self@.name_of(self@.entries[slots@[j] as int]),
                out@ == model::drive_path(self.letter, whole.skip(i as int)),
                out@.len() > 0,
            decreases i,
        {
            i = i - 1;
            let ghost rest = whole.skip(i as int);
            assert(rest.drop_first() =~= whole.skip(i + 1));
            assert(rest.first() == whole[i as int]);
            let e = self.entries[slots[i]];
            assert(self@.name_in_pool(self@.entries[slots@[i as int] as int]));
            let part = self.name_slice(&e);
            if part.len() > 0 {
                if out[out.len() - 1] != '\\' {
                    out.push('\\');
                }
                let mut piece = chars_of(from_utf16_lossy(part).as_str());
                out.append(&mut piece);
            }
        }
        assert(whole.skip(0) =~= whole);
        string_of(out.as_slice())
    }

    /// Whether the index is well-formed, as every index is that was built by the operations here;
    /// one read from elsewhere may not be.
    pub fn is_well_formed(&self) -> (r: bool)
        ensures
            r == self@.wf(),
    {
        let n: usize = self.entries.len();
        if n > u32::MAX as usize || self.frns.len() != n || self.deleted > n / 4 {
            return false;
        }
        let mut names: u64 = 0;
        let mut pys: u64 = 0;
        let mut count: usize = 0;
        let mut ok = true;
        assert(self@.entries.take(0) =~= seq![]);
        assert(self@.frns.take(0) =~= seq![]);
        for i in 0..n
            invariant
                n == self@.entries.len(),
                n <= u32::MAX,
                self@.frns.len() == n,
                names as int == model::names_total(self@.entries.take(i as int)),
                pys as int == model::pys_total(self@.entries.take(i as int)),
                names <= i * 0xFFFF,
                pys <= i * 0xFFFF,
                count == laws::non_zero(self@.frns.take(i as int)).len(),
                count <= i,
                ok == ((forall|j: int| #![trigger self@.entries[j]]
                    0 <= j < i ==> self@.name_in_pool(self@.entries[j]) && (self@.entries[j].py_len
                        > 0 ==> self@.py_in_pool(self@.entries[j]))) && (forall|j: int|
                    #![trigger self@.frns[j]]
                    0 <= j < i && self@.frns[j] != 0 ==> self@.frn_map.contains_key(self@.frns[j])
                        && self@.frn_map[self@.frns[j]] == j)),
        {
            let e = self.entries[i];
            let frn = self.frns[i];
            assert(self@.entries.take(i + 1).drop_last() =~= self@.entries.take(i as int));
            assert(self@.frns.take(i + 1).drop_last() =~= self@.frns.take(i as int));
            assert(self@.frns[i as int] == frn);
            assert(self@.entries[i as int] == e);
            if e.name_off as u64 + e.name_len as u64 > self.names.len() as u64 {
                ok = false;
            }
            if e.py_len > 0 && e.py_off as u64 + e.py_len as u64 > self.pys.len() as u64 {
                ok = false;
            }
            if frn != 0 {
                match map_get(&self.frn_map, frn) {
                    Some(slot) => if slot as usize != i {
                        ok = false;
                    },
                    None => {
                        ok = false;
                    },
                }
                count = count + 1;
            }
            names = names + e.name_len as u64;
            pys = pys + e.py_len as u64;
        }
        assert(self@.entries.take(n as int) =~= self@.entries);
        assert(self@.frns.take(n as int) =~= self@.frns);
        let keys = map_len(&self.frn_map);
        proof {
            if ok {
                laws::lemma_key_count(self@, keys as nat);
            }
        }
        ok && keys == count && names <= self.names.len() as u64 && pys <= self.pys.len() as u64
    }

    /// Whether all names and spellings lie in the pools, which is what a search needs.
    pub fn is_searchable(&self) -> (r: bool)
        ensures
            r == self@.pools_ok(),
    {
        let n: usize = self.entries.len();
        if n > u32::MAX as usize {
            return false;
        }
        for i in 0..n
            invariant
                n == self@.entries.len(),
                forall|j: int| #![trigger self@.entries[j]]
                    0 <= j < i ==> self@.name_in_pool(self@.entries[j]) && (self@.entries[j].py_len
                        > 0 ==> self@.py_in_pool(self@.entries[j])),
        {
            let e = self.entries[i];
            assert(self@.entries[i as int] == e);
            if e.name_off as u64 + e.name_len as u64 > self.names.len() as u64 {
                return false;
            }
            if e.py_len > 0 && e.py_off as u64 + e.py_len as u64 > self.pys.len() as u64 {
                return false;
            }
        }
        true
    }
}

/// The indexes of all volumes.
pub struct Index {
    pub volumes: Vec<VolumeIndex>,
}

impl View for Index {
    type V = Seq<VolumeModel>;

    open spec fn view(&self) -> Seq<VolumeModel> {
        self.volumes@.map_values(|v: VolumeIndex| v@)
    }
}

/// The number of entries of some volumes.
pub open spec fn entry_count(volumes: Seq<VolumeModel>) -> int
    decreases volumes.len(),
{
    if volumes.len() == 0 {
        0
    } else {
        entry_count(volumes.drop_last()) + volumes.last().entries.len()
    }
}

proof fn lemma_entry_count_grows(volumes: Seq<VolumeModel>, i: int)
    requires
        0 <= i <= volumes.len(),
    ensures
        0 <= entry_count(volumes.take(i)) <= entry_count(volumes),
    decreases volumes.len() - i,
{
    if i < volumes.len() {
        lemma_entry_count_grows(volumes, i + 1);
        assert(volumes.take(i + 1).drop_last() =~= volumes.take(i));
        lemma_entry_count_nonneg(volumes.take(i));
    } else {
        assert(volumes.take(i) =~= volumes);
        lemma_entry_count_nonneg(volumes);
    }
}

proof fn lemma_entry_count_nonneg(volumes: Seq<VolumeModel>)
    ensures
        0 <= entry_count(volumes),
    decreases volumes.len(),
{
    if volumes.len() > 0 {
        lemma_entry_count_nonneg(volumes.drop_last());
    }
}

impl Index {
    pub fn new() -> (r: Index)
        ensures
            r@ == Seq::<VolumeModel>::empty(),
    {
        let r = Index { volumes: Vec::new() };
        assert(r@ =~= seq![]);
        r
    }

    pub fn total_entries(&self) -> (r: usize)
        requires
            entry_count(self@) <= usize::MAX,
        ensures
            r == entry_count(self@),
    {
        let mut total: usize = 0;
        assert(self@.take(0) =~= seq![]);
        for i in 0..self.volumes.len()
            invariant
                total == entry_count(self@.take(i as int)),
                entry_count(self@) <= usize::MAX,
        {
            proof {
                assert(self@.take(i + 1).drop_last() =~= self@.take(i as int));
                assert(self@[i as int] == self.volumes@[i as int]@);
                lemma_entry_count_grows(self@, i + 1);
            }
            total = total + self.volumes[i].len();
        }
        assert(self@.take(self@.len() as int) =~= self@);
        total
    }
}

impl Default for Index {
    fn default() -> (r: Index)
        ensures
            r@ == Seq::<VolumeModel>::empty(),
    {
        Index::new()
    }
}

} // verus!
