//! The volumes of this machine: volume paths, drive letters and file systems.

use vstd::prelude::*;
use vstd::slice::slice_subrange;

use crate::text;
use crate::text::{chars_of, copy_str, find_zero, from_utf16_lossy, name_in, str_eq, text_before_zero, to_ascii_lowercase, to_upper_char};

verus! {

/// The drive type of a fixed disk.
pub const DRIVE_FIXED: u32 = 3;

#[derive(Debug)]
pub struct VolumeInfo {
    /// In the form `\\?\Volume{...}`.
    pub volume_path: String,
    /// The drive letter at which the volume is mounted, if it is.
    pub drive: Option<char>,
    pub is_ntfs: bool,
}

impl Clone for VolumeInfo {
    fn clone(&self) -> (r: VolumeInfo)
        ensures
            r.volume_path@ == self.volume_path@,
            r.drive == self.drive,
            r.is_ntfs == self.is_ntfs,
    {
        VolumeInfo {
            volume_path: copy_str(self.volume_path.as_str()),
            drive: self.drive,
            is_ntfs: self.is_ntfs,
        }
    }
}

/// The `i`th drive letter.
pub open spec fn letter_at(i: int) -> char {
    (0x41 + i) as char
}

/// All drive letters.
pub open spec fn all_letters() -> Seq<char> {
    Seq::new(26, |i: int| letter_at(i))
}

/// The `i`th drive letter.
pub fn drive_letter(i: u8) -> (r: char)
    requires
        i < 26,
    ensures
        r == letter_at(i as int),
{
    (0x41 + i) as char
}

/// All drive letters, `A` to `Z`.
pub fn drive_letters() -> (r: Vec<char>)
    ensures
        r@ == all_letters(),
{
    let mut out: Vec<char> = Vec::new();
    for i in 0..26u8
        invariant
            out@ == all_letters().take(i as int),
    {
        out.push(drive_letter(i));
        assert(out@ =~= all_letters().take(i + 1));
    }
    assert(all_letters().take(26) =~= all_letters());
    out
}

/// The drives of fixed disks among the first `n` letters.
pub open spec fn fixed_of(types: Seq<u32>, n: int) -> Seq<char>
    decreases n,
{
    if n <= 0 {
        seq![]
    } else if types[n - 1] == DRIVE_FIXED {
        fixed_of(types, n - 1).push(letter_at(n - 1))
    } else {
        fixed_of(types, n - 1)
    }
}

/// The letters of fixed disks, by the drive types of the letters `A` to `Z`. The file system is
/// not looked at: whether it is NTFS shows when its table is enumerated.
pub fn fixed_drives(types: &[u32]) -> (r: Vec<char>)
    requires
        types@.len() == 26,
    ensures
        r@ == fixed_of(types@, 26),
{
    let mut out: Vec<char> = Vec::new();
    for i in 0..26u8
        invariant
            types@.len() == 26,
            out@ == fixed_of(types@, i as int),
    {
        if types[i as usize] == DRIVE_FIXED {
            out.push(drive_letter(i));
        }
    }
    out
}

/// The drives whose tables are tried.
pub open spec fn candidates_of(fixed: Seq<char>) -> Seq<char> {
    if fixed.len() == 0 {
        all_letters()
    } else {
        fixed
    }
}

/// The drives whose tables are tried: the fixed disks, or all letters where none was recognised.
pub fn candidate_drives(fixed: Vec<char>) -> (r: Vec<char>)
    ensures
        r@ == candidates_of(fixed@),
{
    if fixed.len() == 0 {
        drive_letters()
    } else {
        fixed
    }
}

/// The drive letter, in upper case, of a mount point like `C:\`.
pub open spec fn drive_of(mount: Seq<char>) -> Option<char> {
    let c = text::upper_char(mount[0]);
    if mount.len() >= 3 && mount[1] == ':' && mount[2] == '\\' && 'A' <= c <= 'Z' {
        Some(c)
    } else {
        None
    }
}

/// The drive letter of the first mount point, from a place on, that has one. Mount points end in
/// zeros, and an empty one ends the list.
pub open spec fn first_drive(names: Seq<u16>, i: int) -> Option<char>
    decreases names.len() - i,
{
    if i < 0 || i >= names.len() || names[i] == 0 {
        None
    } else {
        proof {
            text::lemma_zero_from(names, i);
        }
        match text::zero_from(names, i) {
            Some(end) => {
                let mount = text::utf16_lossy(names.subrange(i, end));
                if drive_of(mount) is Some {
                    drive_of(mount)
                } else {
                    first_drive(names, end + 1)
                }
            },
            None => None,
        }
    }
}

/// Each mount point that is looked at ends in a zero.
pub open spec fn is_terminated(names: Seq<u16>, i: int) -> bool
    decreases names.len() - i,
{
    if i < 0 || i >= names.len() || names[i] == 0 {
        true
    } else {
        proof {
            text::lemma_zero_from(names, i);
        }
        match text::zero_from(names, i) {
            Some(end) => drive_of(text::utf16_lossy(names.subrange(i, end))) is Some
                || is_terminated(names, end + 1),
            None => false,
        }
    }
}

fn letter_of(mount: &str) -> (r: Option<char>)
    ensures
        r == drive_of(mount@),
{
    let chars = chars_of(mount);
    if chars.len() >= 3 && chars[1] == ':' && chars[2] == '\\' {
        let c = to_upper_char(chars[0]);
        if c >= 'A' && c <= 'Z' {
            return Some(c);
        }
    }
    None
}

/// Whether each mount point that is looked at ends in a zero.
pub fn mounts_terminated(names: &[u16]) -> (r: bool)
    ensures
        r == is_terminated(names@, 0),
{
    let mut i: usize = 0;
    while i < names.len() && names[i] != 0
        invariant
            i <= names@.len(),
            is_terminated(names@, 0) == is_terminated(names@, i as int),
        decreases names@.len() - i,
    {
        match find_zero(names, i) {
            Some(end) => {
                let mount = from_utf16_lossy(slice_subrange(names, i, end));
                if letter_of(mount.as_str()).is_some() {
                    return true;
                }
                i = end + 1;
            },
            None => {
                return false;
            },
        }
    }
    true
}

/// The drive letter of the first mount point that has one.
pub fn mount_point(names: &[u16]) -> (r: Option<char>)
    requires
        is_terminated(names@, 0),
    ensures
        r == first_drive(names@, 0),
{
    let mut i: usize = 0;
    while i < names.len() && names[i] != 0
        invariant
            i <= names@.len(),
            is_terminated(names@, i as int),
            first_drive(names@, 0) == first_drive(names@, i as int),
        decreases names@.len() - i,
    {
        match find_zero(names, i) {
            Some(end) => {
                let mount = from_utf16_lossy(slice_subrange(names, i, end));
                let letter = letter_of(mount.as_str());
                if letter.is_some() {
                    return letter;
                }
                i = end + 1;
            },
            None => {
                return None;
            },
        }
    }
    None
}

/// Whether a buffer names the file system `NTFS`.
pub open spec fn names_ntfs(fs_name: Seq<u16>) -> bool {
    text::ascii_lower(text::utf16_lossy(fs_name.take(text::name_end(fs_name)))) == "ntfs"@
}

/// Whether the name of a file system is `NTFS`, in letters of either case. The name ends at the
/// first zero of the buffer.
pub fn fs_type_is_ntfs(fs_name: &[u16]) -> (r: bool)
    ensures
        r == names_ntfs(fs_name@),
{
    let name = from_utf16_lossy(name_in(fs_name));
    str_eq(to_ascii_lowercase(name.as_str()).as_str(), "ntfs")
}

/// The volume path in a buffer, which ends in a zero.
pub open spec fn path_in(buf: Seq<u16>) -> Seq<char> {
    match text::zero_from(buf, 0) {
        Some(n) => text::utf16_lossy(buf.take(n)),
        None => seq![],
    }
}

/// What is known of a volume: nothing where it has no path; whether it is NTFS is asked only of
/// one with a drive letter.
pub fn describe(buf: &[u16], drive: Option<char>, is_ntfs: bool) -> (r: Option<VolumeInfo>)
    ensures
        ({
            let path = path_in(buf@);
            match r {
                Some(info) => path.len() > 0 && info.volume_path@ == path && info.drive == drive
                    && info.is_ntfs == (drive is Some && is_ntfs),
                None => path.len() == 0,
            }
        }),
{
    let volume_path = text_before_zero(buf);
    if str_eq(volume_path.as_str(), "") {
        proof {
            reveal_strlit("");
        }
        return None;
    }
    assert(volume_path@.len() > 0) by {
        reveal_strlit("");
        if volume_path@.len() == 0 {
            assert(volume_path@ =~= ""@);
        }
    }
    Some(VolumeInfo { volume_path, drive, is_ntfs: drive.is_some() && is_ntfs })
}

} // verus!
