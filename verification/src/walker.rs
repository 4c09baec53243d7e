//! Indexing by walking directories, for volumes that are not NTFS or cannot be read directly. It is
//! slower than reading the file table, but the index is the same, and so is the speed of a search.

use vstd::prelude::*;

use crate::text;
use crate::text::{copy_str, list_contains, to_ascii_lowercase};

verus! {

/// The attribute of symbolic links and junctions.
pub const ATTRIBUTE_REPARSE_POINT: u32 = 0x400;

pub struct WalkStats {
    pub files: usize,
    pub dirs: usize,
}

/// A walk through a directory tree, depth first: the directories that were found and not yet read,
/// and what was counted.
pub struct Walk {
    pub stack: Vec<String>,
    pub stats: WalkStats,
}

/// What becomes of a directory entry.
#[derive(Clone, Copy, Debug, PartialEq, Eq, Structural)]
pub enum Visit {
    /// A directory to be indexed, and walked later.
    Directory,
    /// A file to be indexed.
    File,
    /// Neither indexed nor walked.
    Skipped,
}

/// What the file system says of a directory entry. The name is missing where it is no valid text.
pub struct Found<'a> {
    pub path: &'a str,
    pub name: Option<&'a str>,
    pub is_dir: bool,
    pub is_file: bool,
    pub attributes: u32,
}

/// The name of an entry in lower case, empty where it is missing.
pub open spec fn lower_name(name: Option<&str>) -> Seq<char> {
    match name {
        Some(n) => text::ascii_lower(n@),
        None => seq![],
    }
}

/// What becomes of a directory entry: links and junctions are not followed, which keeps the walk
/// free of cycles, and directories of certain names are left out.
pub open spec fn verdict(found: Found, skip_dirs: Seq<Seq<char>>) -> Visit {
    if found.is_dir {
        if found.attributes & ATTRIBUTE_REPARSE_POINT != 0 || skip_dirs.contains(
            lower_name(found.name),
        ) {
            Visit::Skipped
        } else {
            Visit::Directory
        }
    } else if found.is_file {
        Visit::File
    } else {
        Visit::Skipped
    }
}

impl Walk {
    /// A walk from a root. Its trailing `\` stays: `D:` would be the current directory of the drive.
    pub fn new(root: &str) -> (r: Walk)
        ensures
            text::texts(r.stack@) == seq![root@],
            r.stats.files == 0,
            r.stats.dirs == 0,
    {
        let mut stack: Vec<String> = Vec::new();
        stack.push(copy_str(root));
        assert(text::texts(stack@) =~= seq![root@]);
        Walk { stack, stats: WalkStats { files: 0, dirs: 0 } }
    }

    /// The directory to be read next; the last one found comes first.
    pub fn next_dir(&mut self) -> (r: Option<String>)
        ensures
            final(self).stats == old(self).stats,
            match r {
                Some(dir) => old(self).stack@.len() > 0 && dir == old(self).stack@.last()
                    && final(self).stack@ == old(self).stack@.drop_last(),
                None => old(self).stack@.len() == 0 && final(self).stack@ == old(self).stack@,
            },
    {
        self.stack.pop()
    }

    /// Decides on a directory entry.
    pub fn visit(&mut self, found: &Found, skip_dirs: &[String]) -> (r: Visit)
        requires
            old(self).stats.files < usize::MAX,
            old(self).stats.dirs < usize::MAX,
        ensures
            r == verdict(*found, text::texts(skip_dirs@)),
            final(self).stats.files == old(self).stats.files + if r is File {
                1int
            } else {
                0
            },
            final(self).stats.dirs == old(self).stats.dirs + if r is Directory {
                1int
            } else {
                0
            },
            text::texts(final(self).stack@) == if r is Directory {
                text::texts(old(self).stack@).push(found.path@)
            } else {
                text::texts(old(self).stack@)
            },
    {
        if found.is_dir {
            if found.attributes & ATTRIBUTE_REPARSE_POINT != 0 {
                return Visit::Skipped;
            }
            let name = match found.name {
                Some(n) => to_ascii_lowercase(n),
                None => String::new(),
            };
            assert(name@ =~= lower_name(found.name));
            if list_contains(skip_dirs, name.as_str()) {
                return Visit::Skipped;
            }
            self.stats.dirs = self.stats.dirs + 1;
            self.stack.push(copy_str(found.path));
            assert(text::texts(self.stack@) =~= text::texts(old(self).stack@).push(found.path@));
            Visit::Directory
        } else if found.is_file {
            self.stats.files = self.stats.files + 1;
            Visit::File
        } else {
            Visit::Skipped
        }
    }
}

} // verus!
