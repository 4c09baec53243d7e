//! Core data types.

use std::sync::atomic::AtomicU64;
use vstd::prelude::*;

verus! {

/// Generation of the current query; a search is cancelled once it exceeds the search's own.
pub type CancelGen = AtomicU64;

/// The entry is a directory.
pub const FLAG_IS_DIR: u16 = 1;

/// The name pool holds the entry's full path (volumes indexed by walking their directories); its
/// file name is what follows the last `\`.
pub const FLAG_IS_PATH: u16 = 2;

/// NTFS system file (its name starts with `$`), ranked down by default.
pub const FLAG_IS_SYSTEM: u16 = 4;

/// Inside a start menu `Programs` directory (shortcuts of installed software), ranked up.
pub const FLAG_START_MENU: u16 = 8;

/// The name holds Chinese characters (and has a pinyin spelling), ranked up.
pub const FLAG_IS_CJK: u16 = 16;

/// Whether a flag is set.
pub open spec fn has_flag(flags: u16, flag: u16) -> bool {
    flags & flag != 0
}

/// The flags with one more set where the condition holds.
pub open spec fn flag_if(flags: u16, flag: u16, on: bool) -> u16 {
    if on {
        flags | flag
    } else {
        flags
    }
}

/// One indexed file or directory. Its name and its pinyin spelling live in the pools of the
/// volume.
#[derive(Clone, Copy, Debug, PartialEq, Eq, Structural)]
pub struct Entry {
    /// File reference number of the parent directory (NTFS); 0 for a path entry.
    pub parent: u64,
    /// Offset of the name in the name pool, in UTF-16 units.
    pub name_off: u32,
    /// Offset of the pinyin spelling in the pinyin pool, in UTF-16 units; 0 where there is none.
    pub py_off: u32,
    /// Length of the name in UTF-16 units.
    pub name_len: u16,
    /// Length of the pinyin spelling in UTF-16 units, 0 where there is none.
    pub py_len: u16,
    pub flags: u16,
}

impl Entry {
    pub fn is_dir(&self) -> (r: bool)
        ensures
            r == has_flag(self.flags, FLAG_IS_DIR),
    {
        self.flags & FLAG_IS_DIR != 0
    }

    pub fn is_path_entry(&self) -> (r: bool)
        ensures
            r == has_flag(self.flags, FLAG_IS_PATH),
    {
        self.flags & FLAG_IS_PATH != 0
    }

    pub fn is_system(&self) -> (r: bool)
        ensures
            r == has_flag(self.flags, FLAG_IS_SYSTEM),
    {
        self.flags & FLAG_IS_SYSTEM != 0
    }

    pub fn has_py(&self) -> (r: bool)
        ensures
            r == (self.py_len > 0),
    {
        self.py_len > 0
    }

    pub fn is_start_menu(&self) -> (r: bool)
        ensures
            r == has_flag(self.flags, FLAG_START_MENU),
    {
        self.flags & FLAG_START_MENU != 0
    }

    pub fn is_cjk(&self) -> (r: bool)
        ensures
            r == has_flag(self.flags, FLAG_IS_CJK),
    {
        self.flags & FLAG_IS_CJK != 0
    }
}

} // verus!
