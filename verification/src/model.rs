//! The mathematical model of a volume's index, and what holds of it.

use vstd::prelude::*;

use crate::text;
use crate::types;
use crate::types::{Entry, FLAG_IS_CJK, FLAG_IS_DIR, FLAG_IS_PATH, FLAG_IS_SYSTEM, FLAG_START_MENU};

verus! {

/// File reference number of the root directory of an NTFS volume.
pub const ROOT_FRN: u64 = 5;

/// How many directories a path is followed upwards at most.
pub const MAX_DEPTH: u32 = 128;

/// What one index entry stands for.
#[verifier::ext_equal]
pub struct Node {
    pub parent: u64,
    pub name: Seq<u16>,
    pub py: Seq<u16>,
    pub flags: u16,
}

/// The contents of a volume's index.
#[verifier::ext_equal]
pub struct VolumeModel {
    pub letter: char,
    pub is_ntfs: bool,
    pub journal_id: u64,
    pub next_usn: i64,
    pub names: Seq<u16>,
    pub pys: Seq<u16>,
    pub entries: Seq<Entry>,
    pub frns: Seq<u64>,
    pub frn_map: Map<u64, u32>,
    pub start_menu: Set<u64>,
    pub deleted: nat,
}

/// Whether a name holds `~`, the mark of an 8.3 short name.
pub open spec fn is_short_name(name: Seq<u16>) -> bool {
    name.contains(0x7Eu16)
}

/// The part of a path after its last `\`.
pub open spec fn file_part(path: Seq<u16>) -> Seq<u16>
    decreases path.len(),
{
    if path.len() == 0 || path.last() == 0x5C {
        seq![]
    } else {
        file_part(path.drop_last()).push(path.last())
    }
}

/// The total length of the names of entries.
pub open spec fn names_total(entries: Seq<Entry>) -> int
    decreases entries.len(),
{
    if entries.len() == 0 {
        0
    } else {
        names_total(entries.drop_last()) + entries.last().name_len
    }
}

/// The total length of the pinyin spellings of entries.
pub open spec fn pys_total(entries: Seq<Entry>) -> int
    decreases entries.len(),
{
    if entries.len() == 0 {
        0
    } else {
        pys_total(entries.drop_last()) + entries.last().py_len
    }
}

/// The slot of each non-zero file reference number of a list, the last slot where one is repeated.
pub open spec fn slot_map(frns: Seq<u64>) -> Map<u64, u32>
    decreases frns.len(),
{
    if frns.len() == 0 {
        Map::empty()
    } else if frns.last() == 0 {
        slot_map(frns.drop_last())
    } else {
        slot_map(frns.drop_last()).insert(frns.last(), (frns.len() - 1) as u32)
    }
}

/// A path with one more component: a `\` stands between them, an empty component adds nothing.
pub open spec fn add_component(path: Seq<char>, name: Seq<u16>) -> Seq<char> {
    if name.len() == 0 {
        path
    } else if path.len() > 0 && path.last() == '\\' {
        path + text::utf16_lossy(name)
    } else {
        path.push('\\') + text::utf16_lossy(name)
    }
}

/// The path on a drive made of components, the innermost first.
pub open spec fn drive_path(letter: char, parts: Seq<Seq<u16>>) -> Seq<char>
    decreases parts.len(),
{
    if parts.len() == 0 {
        seq![letter, ':', '\\']
    } else {
        add_component(drive_path(letter, parts.drop_first()), parts.first())
    }
}

impl VolumeModel {
    /// The index without entries.
    pub open spec fn empty(letter: char, is_ntfs: bool) -> VolumeModel {
        VolumeModel {
            letter,
            is_ntfs,
            journal_id: 0,
            next_usn: 0,
            names: seq![],
            pys: seq![],
            entries: seq![],
            frns: seq![],
            frn_map: Map::empty(),
            start_menu: Set::empty(),
            deleted: 0,
        }
    }

    /// The name of an entry lies in the name pool.
    pub open spec fn name_in_pool(self, e: Entry) -> bool {
        e.name_off + e.name_len <= self.names.len()
    }

    /// The pinyin spelling of an entry lies in the pinyin pool.
    pub open spec fn py_in_pool(self, e: Entry) -> bool {
        e.py_off + e.py_len <= self.pys.len()
    }

    /// The name of an entry.
    pub open spec fn name_of(self, e: Entry) -> Seq<u16> {
        self.names.subrange(e.name_off as int, e.name_off + e.name_len)
    }

    /// The pinyin spelling of an entry.
    pub open spec fn py_of(self, e: Entry) -> Seq<u16> {
        self.pys.subrange(e.py_off as int, e.py_off + e.py_len)
    }

    /// Names and spellings lie in the pools, and slots fit their type.
    pub open spec fn pools_ok(self) -> bool {
        &&& self.entries.len() <= u32::MAX
        &&& forall|i: int| #![trigger self.entries[i]]
            0 <= i < self.entries.len() ==> {
                &&& self.name_in_pool(self.entries[i])
                &&& self.entries[i].py_len > 0 ==> self.py_in_pool(self.entries[i])
            }
    }

    /// The slots of the entries and the map from file reference numbers agree.
    pub open spec fn slots_ok(self) -> bool {
        &&& self.frns.len() == self.entries.len()
        &&& forall|f: u64| #[trigger]
            self.frn_map.contains_key(f) ==> self.frn_map[f] < self.frns.len()
                && self.frns[self.frn_map[f] as int] == f
        &&& forall|s: int| #![trigger self.frns[s]]
            0 <= s < self.frns.len() && self.frns[s] != 0 ==> self.frn_map.contains_key(
                self.frns[s],
            ) && self.frn_map[self.frns[s]] == s
    }

    /// What every operation keeps.
    pub open spec fn inv(self) -> bool {
        &&& self.pools_ok()
        &&& self.slots_ok()
        &&& names_total(self.entries) <= self.names.len()
        &&& pys_total(self.entries) <= self.pys.len()
        &&& self.deleted * 4 <= self.entries.len()
    }

    /// The invariant of an index in which 0 is no file reference number.
    pub open spec fn wf(self) -> bool {
        self.inv() && !self.frn_map.contains_key(0)
    }

    /// Offsets into the pools fit their type.
    pub open spec fn addressable(self) -> bool {
        self.names.len() <= u32::MAX && self.pys.len() <= u32::MAX
    }

    /// What the entry in a slot stands for.
    pub open spec fn node(self, slot: int) -> Node {
        let e = self.entries[slot];
        Node {
            parent: e.parent,
            name: self.name_of(e),
            py: if e.py_len > 0 {
                self.py_of(e)
            } else {
                seq![]
            },
            flags: e.flags,
        }
    }

    /// The indexed files by file reference number.
    pub open spec fn live(self) -> Map<u64, Node> {
        Map::new(|f: u64| self.frn_map.contains_key(f), |f: u64| self.node(self.frn_map[f] as int))
    }

    /// The flags of an NTFS entry, but for the one on Chinese characters.
    pub open spec fn ntfs_flags(self, frn: u64, parent: u64, name: Seq<u16>, is_dir: bool) -> u16 {
        let dir = types::flag_if(0, FLAG_IS_DIR, is_dir);
        let system = types::flag_if(dir, FLAG_IS_SYSTEM, name.len() > 0 && name[0] == 0x24);
        types::flag_if(
            system,
            FLAG_START_MENU,
            self.start_menu.contains(parent) || self.start_menu.contains(frn),
        )
    }

    /// The entry whose name and spelling are about to be put at the end of the pools. Offsets and
    /// lengths are cut to the width of their fields.
    pub open spec fn entry_at_end(
        self,
        parent: u64,
        name: Seq<u16>,
        py: Option<Seq<u16>>,
        flags: u16,
    ) -> Entry {
        let py_len = match py {
            Some(p) => (p.len() % 0x1_0000) as u16,
            None => 0u16,
        };
        Entry {
            parent,
            name_off: (self.names.len() % 0x1_0000_0000) as u32,
            py_off: if py is Some {
                (self.pys.len() % 0x1_0000_0000) as u32
            } else {
                0
            },
            name_len: (name.len() % 0x1_0000) as u16,
            py_len,
            flags: types::flag_if(flags, FLAG_IS_CJK, py_len > 0),
        }
    }

    /// The index with a name and a spelling appended to the pools.
    pub open spec fn with_text(self, name: Seq<u16>, py: Option<Seq<u16>>) -> VolumeModel {
        VolumeModel {
            names: self.names + name,
            pys: match py {
                Some(p) => self.pys + p,
                None => self.pys,
            },
            ..self
        }
    }

    /// Whether a name is a short name for a file that is indexed under its long name.
    pub open spec fn shadowed(self, frn: u64, name: Seq<u16>) -> bool {
        &&& self.frn_map.contains_key(frn)
        &&& is_short_name(name)
        &&& !is_short_name(self.name_of(self.entries[self.frn_map[frn] as int]))
    }

    /// The index with an NTFS entry inserted or updated. `py` is the spelling of the name.
    pub open spec fn upsert(
        self,
        frn: u64,
        parent: u64,
        name: Seq<u16>,
        is_dir: bool,
        py: Option<Seq<u16>>,
    ) -> VolumeModel {
        let e = self.entry_at_end(parent, name, py, self.ntfs_flags(frn, parent, name, is_dir));
        if self.shadowed(frn, name) {
            self
        } else if self.frn_map.contains_key(frn) {
            VolumeModel {
                entries: self.entries.update(self.frn_map[frn] as int, e),
                ..self.with_text(name, py)
            }
        } else {
            VolumeModel {
                entries: self.entries.push(e),
                frns: self.frns.push(frn),
                frn_map: self.frn_map.insert(frn, self.entries.len() as u32),
                ..self.with_text(name, py)
            }
        }
    }

    /// The index with a path entry added. `py` is the spelling of the path's file name.
    pub open spec fn push_path(self, path: Seq<u16>, is_dir: bool, py: Option<Seq<u16>>) -> VolumeModel {
        VolumeModel {
            entries: self.entries.push(
                self.entry_at_end(0, path, py, types::flag_if(FLAG_IS_PATH, FLAG_IS_DIR, is_dir)),
            ),
            frns: self.frns.push(0),
            ..self.with_text(path, py)
        }
    }

    /// The names of the first `n` entries in a row.
    pub open spec fn packed_names(self, n: int) -> Seq<u16>
        decreases n,
    {
        if n <= 0 {
            seq![]
        } else {
            self.packed_names(n - 1) + self.name_of(self.entries[n - 1])
        }
    }

    /// The spellings of the first `n` entries in a row.
    pub open spec fn packed_pys(self, n: int) -> Seq<u16>
        decreases n,
    {
        if n <= 0 {
            seq![]
        } else if self.entries[n - 1].py_len > 0 {
            self.packed_pys(n - 1) + self.py_of(self.entries[n - 1])
        } else {
            self.packed_pys(n - 1)
        }
    }

    /// The entry in a slot after the pools were packed.
    pub open spec fn packed_entry(self, slot: int) -> Entry {
        let e = self.entries[slot];
        Entry {
            name_off: (self.packed_names(slot).len() % 0x1_0000_0000) as u32,
            py_off: if e.py_len > 0 {
                (self.packed_pys(slot).len() % 0x1_0000_0000) as u32
            } else {
                e.py_off
            },
            ..e
        }
    }

    /// The index with its pools packed and its map made anew.
    pub open spec fn compact(self) -> VolumeModel {
        let n = self.entries.len() as int;
        VolumeModel {
            names: self.packed_names(n),
            pys: self.packed_pys(n),
            entries: Seq::new(self.entries.len(), |i: int| self.packed_entry(i)),
            frn_map: slot_map(self.frns),
            deleted: 0,
            ..self
        }
    }

    /// The index without an entry, the last entry moved into its slot.
    pub open spec fn take_out(self, frn: u64) -> VolumeModel {
        let slot = self.frn_map[frn] as int;
        let last = self.entries.len() - 1;
        let rest = self.frn_map.remove(frn);
        VolumeModel {
            entries: self.entries.update(slot, self.entries[last]).drop_last(),
            frns: self.frns.update(slot, self.frns[last]).drop_last(),
            frn_map: if slot != last && self.frns[last] != 0 {
                rest.insert(self.frns[last], slot as u32)
            } else {
                rest
            },
            deleted: self.deleted + 1,
            ..self
        }
    }

    /// The index after the removal of a file: packed once more than a quarter was removed.
    pub open spec fn remove(self, frn: u64) -> VolumeModel {
        if !self.frn_map.contains_key(frn) {
            self
        } else if self.take_out(frn).deleted * 4 > self.take_out(frn).entries.len() {
            self.take_out(frn).compact()
        } else {
            self.take_out(frn)
        }
    }

    /// The first slot from `from` on that holds a directory of the given name (ASCII letters of
    /// either case) under a parent.
    pub open spec fn find_dir(self, parent: u64, name: Seq<char>, from: int) -> Option<int>
        decreases self.entries.len() - from,
    {
        if from < 0 || from >= self.entries.len() {
            None
        } else if self.entries[from].parent == parent && types::has_flag(
            self.entries[from].flags,
            FLAG_IS_DIR,
        ) && text::fold_units(self.name_of(self.entries[from])) == text::utf16(
            text::ascii_lower(name),
        ) {
            Some(from)
        } else {
            self.find_dir(parent, name, from + 1)
        }
    }

    /// The file reference number of the directory reached from another by a path.
    pub open spec fn frn_of_path(self, from: u64, path: Seq<Seq<char>>) -> Option<u64>
        decreases path.len(),
    {
        if path.len() == 0 {
            Some(from)
        } else {
            match self.find_dir(from, path.first(), 0) {
                Some(slot) => self.frn_of_path(self.frns[slot], path.drop_first()),
                None => None,
            }
        }
    }

    /// The roots and what lies at most `depth` levels below them.
    pub open spec fn below(self, roots: Set<u64>, depth: nat) -> Set<u64>
        decreases depth,
    {
        if depth == 0 {
            roots
        } else {
            let upper = self.below(roots, (depth - 1) as nat);
            Set::new(
                |f: u64|
                    upper.contains(f) || (f != 0 && exists|s: int| #![trigger self.frns[s]]
                        0 <= s < self.entries.len() && self.frns[s] == f && upper.contains(
                            self.entries[s].parent,
                        )),
            )
        }
    }

    /// The roots and everything below them.
    pub open spec fn subtree(self, roots: Set<u64>) -> Set<u64> {
        Set::new(|f: u64| exists|depth: nat| self.below(roots, depth).contains(f))
    }

    /// A set of file reference numbers that holds with a directory what is in it.
    pub open spec fn closed_below(self, set: Set<u64>) -> bool {
        forall|s: int| #![trigger self.frns[s]]
            0 <= s < self.entries.len() && self.frns[s] != 0 && set.contains(self.entries[s].parent)
                ==> set.contains(self.frns[s])
    }

    /// How many of the first `n` slots hold a file reference number that is not in a set.
    pub open spec fn outside(self, set: Set<u64>, n: int) -> nat
        decreases n,
    {
        if n <= 0 {
            0
        } else {
            self.outside(set, n - 1) + if set.contains(self.frns[n - 1]) {
                0nat
            } else {
                1
            }
        }
    }

    /// The directories of a list of paths that exist.
    pub open spec fn found_dirs(self, paths: Seq<Seq<Seq<char>>>) -> Set<u64> {
        Set::new(
            |f: u64|
                exists|i: int| #![trigger paths[i]]
                    0 <= i < paths.len() && self.frn_of_path(ROOT_FRN, paths[i]) == Some(f),
        )
    }

    /// The index with the start menu directories and what is below them marked.
    pub open spec fn mark_start_menu(self, paths: Seq<Seq<Seq<char>>>) -> VolumeModel {
        let roots = self.found_dirs(paths);
        let marked = self.subtree(roots);
        if forall|f: u64| !roots.contains(f) {
            self
        } else {
            VolumeModel {
                entries: Seq::new(
                    self.entries.len(),
                    |i: int|
                        Entry {
                            flags: types::flag_if(
                                self.entries[i].flags,
                                FLAG_START_MENU,
                                marked.contains(self.entries[i].parent),
                            ),
                            ..self.entries[i]
                        },
                ),
                start_menu: marked,
                ..self
            }
        }
    }

    /// The names met on the way up from a slot, at most `steps` of them.
    pub open spec fn chain(self, slot: int, steps: nat) -> Seq<Seq<u16>>
        decreases steps,
    {
        if steps == 0 || slot < 0 || slot >= self.entries.len() {
            seq![]
        } else {
            let e = self.entries[slot];
            let above = if e.parent == 0 || e.parent == ROOT_FRN || !self.frn_map.contains_key(
                e.parent,
            ) {
                seq![]
            } else {
                self.chain(self.frn_map[e.parent] as int, (steps - 1) as nat)
            };
            seq![self.name_of(e)] + above
        }
    }

    /// The path of the entry in a slot, by the names on the way up.
    pub open spec fn path(self, slot: int) -> Seq<char> {
        drive_path(self.letter, self.chain(slot, MAX_DEPTH as nat))
    }

    /// The full path of the entry in a slot: a path entry holds it, that of any other is found by
    /// going up.
    pub open spec fn full_path(self, slot: int) -> Seq<char> {
        if types::has_flag(self.entries[slot].flags, FLAG_IS_PATH) {
            text::utf16_lossy(self.name_of(self.entries[slot]))
        } else {
            self.path(slot)
        }
    }
}

} // verus!
