//! What holds of terminals and the clipboard, of drives, and of walks through directories.

use vstd::prelude::*;

use crate::bytes;
use crate::key_laws;
use crate::shell_ops;
use crate::snapshot;
use crate::text;
use crate::text_laws;
use crate::text_laws::same_unit;
use crate::volume;
use crate::walker;

verus! {

/// The mark for administrator rights, taken from a kind of terminal.
pub open spec fn admin_mark() -> Seq<char> {
    seq!['_', 'a', 'd', 'm', 'i', 'n']
}

proof fn lemma_admin_mark()
    ensures
        "_admin"@ =~= admin_mark(),
{
    reveal_strlit("_admin");
}

/// A kind with the mark behind it is the same kind with administrator rights; a kind that does not end
/// in the mark is itself, without them.
pub proof fn law_admin_kinds(kind: Seq<char>)
    ensures
        shell_ops::wants_admin(kind + admin_mark()),
        shell_ops::base_kind(kind + admin_mark()) == shell_ops::base_kind(kind),
        kind.len() < 6 || kind.skip(kind.len() - 6) != admin_mark() ==> !shell_ops::wants_admin(kind)
            && shell_ops::base_kind(kind) == kind,
{
    lemma_admin_mark();
    let all = kind + admin_mark();
    assert(all.subrange(all.len() - 6, all.len() as int) =~= admin_mark());
    assert(all.take(all.len() - 6) =~= kind);
    if shell_ops::wants_admin(kind) {
        assert(kind.subrange(kind.len() - 6, kind.len() as int) =~= kind.skip(kind.len() - 6));
    }
}

/// The command prompt and PowerShell are started by their full paths below the system directory, and
/// any other program by its name.
pub proof fn law_system_programs(root: Seq<char>, name: Seq<char>)
    ensures
        shell_ops::system_path(root, "cmd"@) == root + "\\System32\\cmd.exe"@,
        shell_ops::system_path(root, "powershell"@) == root
            + "\\System32\\WindowsPowerShell\\v1.0\\powershell.exe"@,
        name != "cmd"@ && name != "powershell"@ ==> shell_ops::system_path(root, name) == name,
{
    reveal_strlit("cmd");
    reveal_strlit("powershell");
    assert("cmd"@.len() != "powershell"@.len());
}

/// The system directory is `C:\Windows` where nothing else is known.
pub proof fn law_system_directory(root: &str)
    ensures
        shell_ops::root_of(None) == "C:\\Windows"@,
        shell_ops::root_of(Some(root)) == root@,
{
}

/// The command prompt is taken to the directory between double quotes, PowerShell to the text between
/// single quotes, from which it reads the directory back.
pub proof fn law_terminals_are_taken_to_the_directory(base: Seq<char>, dir: Seq<char>)
    ensures
        shell_ops::terminal_params("cmd"@, dir) == "/s /k pushd \""@ + dir + "\""@,
        base != "cmd"@ ==> {
            let head = "-NoLogo -NoExit -Command Set-Location -LiteralPath '"@;
            let all = shell_ops::terminal_params(base, dir);
            &&& all.len() > head.len()
            &&& all.take(head.len() as int) == head
            &&& all.last() == '\''
            &&& shell_ops::unquoted(all.subrange(head.len() as int, all.len() - 1)) == Some(dir)
        },
{
    if base != "cmd"@ {
        let head = "-NoLogo -NoExit -Command Set-Location -LiteralPath '"@;
        let all = shell_ops::terminal_params(base, dir);
        reveal_strlit("'");
        assert("'"@ =~= seq!['\'']);
        shell_ops::law_quote_round_trip(dir);
        assert(all.take(head.len() as int) =~= head);
        assert(all.subrange(head.len() as int, all.len() - 1) =~= shell_ops::quoted(dir));
    }
}

/// What is put on the clipboard begins with the offset of the list of files, 20, and says that the
/// list is in UTF-16; at that offset stands the path, and then two zeros.
pub proof fn law_clipboard(path: Seq<char>)
    ensures
        ({
            let b = shell_ops::drop_files_bytes(path);
            let units = text::utf16(path);
            &&& b.len() == 20 + 2 * (units.len() + 2)
            &&& bytes::number_at(b, 0, 4) == 20
            &&& bytes::number_at(b, 16, 4) == 1
            &&& forall|i: int| 4 <= i < 16 ==> #[trigger] b[i] == 0
            &&& bytes::units_at(b, 20, (units.len() + 2) as nat) == units.push(0).push(0)
        }),
{
    let b = shell_ops::drop_files_bytes(path);
    let units = text::utf16(path).push(0).push(0);
    bytes::lemma_power();
    bytes::law_le_round_trip(20, 4);
    bytes::law_le_round_trip(1, 4);
    bytes::law_le_round_trip(0, 4);
    lemma_zero_bytes(4);
    snapshot::lemma_units_bytes_read(units);
    let tail = snapshot::units_bytes(units);
    assert(b.subrange(0, 4) =~= bytes::to_le(20, 4));
    assert(b.subrange(16, 20) =~= bytes::to_le(1, 4));
    assert forall|i: int| 0 <= i < units.len() implies bytes::units_at(b, 20, units.len())[i]
        == units[i] by {
        assert(b.subrange(20 + i * 2, 20 + i * 2 + 2) =~= tail.subrange(i * 2, i * 2 + 2));
        assert(bytes::units_at(tail, 0, units.len())[i] == units[i]);
    }
    assert(bytes::units_at(b, 20, units.len()) =~= units);
}

proof fn lemma_zero_bytes(n: nat)
    ensures
        bytes::to_le(0, n).len() == n,
        forall|i: int| 0 <= i < n ==> #[trigger] bytes::to_le(0, n)[i] == 0,
    decreases n,
{
    if n > 0 {
        lemma_zero_bytes((n - 1) as nat);
    }
}

/// The drive letters are the letters from `A` to `Z`, in their order.
pub proof fn law_drive_letters(i: int)
    requires
        0 <= i < 26,
    ensures
        volume::all_letters().len() == 26,
        volume::all_letters()[i] as int == 'A' as int + i,
        volume::letter_at(i) as int == 'A' as int + i,
{
}

/// A letter is that of a fixed disk exactly if its drive type is 3; the letters come in their order.
pub proof fn law_fixed_disks(types: Seq<u32>, n: int)
    requires
        0 <= n <= 26,
        n <= types.len(),
    ensures
        forall|i: int| #![trigger types[i]]
            0 <= i < n ==> (types[i] == 3 <==> volume::fixed_of(types, n).contains(
                volume::letter_at(i),
            )),
        forall|k: int| #![trigger volume::fixed_of(types, n)[k]]
            0 <= k < volume::fixed_of(types, n).len() ==> 0x41 <= (
            volume::fixed_of(types, n)[k] as int) < 0x41 + n,
        forall|j: int, k: int|
            #![trigger volume::fixed_of(types, n)[j], volume::fixed_of(types, n)[k]]
            0 <= j < k < volume::fixed_of(types, n).len() ==> (volume::fixed_of(types, n)[j] as int)
                < (volume::fixed_of(types, n)[k] as int),
    decreases n,
{
    if n > 0 {
        law_fixed_disks(types, n - 1);
        let rest = volume::fixed_of(types, n - 1);
        let all = volume::fixed_of(types, n);
        let c = volume::letter_at(n - 1);
        assert forall|i: int| #![trigger types[i]] 0 <= i < n implies (types[i] == 3
            <==> all.contains(volume::letter_at(i))) by {
            let d = volume::letter_at(i);
            if i < n - 1 {
                if rest.contains(d) {
                    let k = choose|k: int| 0 <= k < rest.len() && rest[k] == d;
                    assert(all[k] == d);
                }
                if all.contains(d) {
                    let k = choose|k: int| 0 <= k < all.len() && all[k] == d;
                    if k < rest.len() {
                        assert(rest[k] == d);
                    }
                }
            } else {
                if types[i] == 3 {
                    assert(all[all.len() - 1] == c);
                } else if all.contains(c) {
                    let k = choose|k: int| 0 <= k < rest.len() && rest[k] == c;
                    assert((rest[k] as int) < 'A' as int + n - 1);
                }
            }
        }
    }
}

/// A mount point is that of a drive exactly if it begins with a letter, a colon and a backslash; the
/// drive is that letter in upper case.
pub proof fn law_drive_of_a_mount_point(mount: Seq<char>)
    ensures
        volume::drive_of(mount) is Some <==> mount.len() >= 3 && mount[1] == ':' && mount[2] == '\\'
            && ('A' <= mount[0] <= 'Z' || 'a' <= mount[0] <= 'z'),
        volume::drive_of(mount) matches Some(c) ==> 'A' <= c <= 'Z' && key_laws::same_letter(
            c,
            mount[0],
        ),
{
}

/// In a list of mount points, each with a zero behind it, the first that is that of a drive counts;
/// one that is none is passed over, and an empty one ends the list.
pub proof fn law_first_drive_of_a_list(names: Seq<u16>, from: int, end: int)
    requires
        0 <= from <= end < names.len(),
        names[end] == 0,
        forall|i: int| #![trigger names[i]] from <= i < end ==> names[i] != 0,
    ensures
        from == end ==> volume::first_drive(names, from) is None,
        from < end ==> volume::first_drive(names, from) == (match volume::drive_of(
            text::utf16_lossy(names.subrange(from, end)),
        ) {
            Some(c) => Some(c),
            None => volume::first_drive(names, end + 1),
        }),
        volume::first_drive(names, names.len() as int) is None,
{
    lemma_zero_at(names, from, end);
}

proof fn lemma_zero_at(u: Seq<u16>, from: int, end: int)
    requires
        0 <= from <= end < u.len(),
        u[end] == 0,
        forall|i: int| #![trigger u[i]] from <= i < end ==> u[i] != 0,
    ensures
        text::zero_from(u, from) == Some(end),
    decreases end - from,
{
    if from < end {
        assert(u[from] != 0);
        lemma_zero_at(u, from + 1, end);
    }
}

/// A directory that is met on a walk is entered exactly if it is no link or junction, bit 10 of its
/// attributes, and its name in lower case is not among those that are left out; a file is indexed,
/// whatever it is called; anything else is left out.
pub proof fn law_what_a_walk_enters(found: walker::Found, skip: Seq<Seq<char>>)
    ensures
        ({
            let v = walker::verdict(found, skip);
            &&& v is Directory <==> found.is_dir && found.attributes & 0x400 == 0 && forall|i: int|
                #![trigger skip[i]]
                0 <= i < skip.len() ==> skip[i] != (match found.name {
                    Some(n) => text::ascii_lower(n@),
                    None => seq![],
                })
            &&& v is File <==> !found.is_dir && found.is_file
        }),
{
    let name = walker::lower_name(found.name);
    if skip.contains(name) {
        let i = choose|i: int| 0 <= i < skip.len() && skip[i] == name;
        assert(skip[i] == name);
    }
}

proof fn lemma_plain_units(u: Seq<u16>)
    requires
        forall|i: int| #![trigger text::utf16_lossy(u)[i]]
            0 <= i < text::utf16_lossy(u).len() ==> (text::utf16_lossy(u)[i] as int) < 0x80,
    ensures
        text::utf16_lossy(u).len() == u.len(),
        forall|i: int| #![trigger u[i]] 0 <= i < u.len() ==> text::utf16_lossy(u)[i] as int == u[i],
    decreases u.len(),
{
    if u.len() > 0 {
        let all = text::utf16_lossy(u);
        assert((all[0] as int) < 0x80);
        if text::is_high_surrogate(u[0]) && u.len() >= 2 && text::is_low_surrogate(u[1]) {
            assert(all[0] == text::pair_char(u[0], u[1]));
            assert(text::pair_char(u[0], u[1]) as int >= 0x10000);
        } else if text::is_high_surrogate(u[0]) || text::is_low_surrogate(u[0]) {
            assert(all[0] == '\u{FFFD}');
        } else {
            let rest = text::utf16_lossy(u.skip(1));
            assert(all =~= seq![u[0] as char] + rest);
            assert forall|i: int| #![trigger rest[i]] 0 <= i < rest.len() implies (rest[i] as int)
                < 0x80 by {
                assert(all[i + 1] == rest[i]);
            }
            lemma_plain_units(u.skip(1));
            assert forall|i: int| #![trigger u[i]] 0 <= i < u.len() implies all[i] as int == u[i] by {
                if i > 0 {
                    assert(u.skip(1)[i - 1] == u[i]);
                    assert(all[i] == rest[i - 1]);
                }
            }
        }
    }
}

proof fn lemma_lossy_of_plain(u: Seq<u16>)
    requires
        forall|i: int| #![trigger u[i]] 0 <= i < u.len() ==> u[i] < 0x80,
    ensures
        text::utf16_lossy(u).len() == u.len(),
        forall|i: int| #![trigger u[i]] 0 <= i < u.len() ==> text::utf16_lossy(u)[i] as int == u[i],
    decreases u.len(),
{
    if u.len() > 0 {
        let rest = text::utf16_lossy(u.skip(1));
        assert(u[0] < 0x80);
        let all = text::utf16_lossy(u);
        assert(all =~= seq![u[0] as char] + rest);
        assert forall|i: int| #![trigger u.skip(1)[i]] 0 <= i < u.skip(1).len() implies u.skip(1)[i]
            < 0x80 by {
            assert(u[i + 1] < 0x80);
        }
        lemma_lossy_of_plain(u.skip(1));
        assert forall|i: int| #![trigger u[i]] 0 <= i < u.len() implies all[i] as int == u[i] by {
            if i > 0 {
                assert(u.skip(1)[i - 1] == u[i]);
                assert(all[i] == rest[i - 1]);
            }
        }
    }
}

/// A buffer holds a word, which ends at the first zero or with the buffer, in letters of either case.
pub open spec fn holds_word(buf: Seq<u16>, word: Seq<char>) -> bool {
    &&& word.len() <= buf.len()
    &&& word.len() == buf.len() || buf[word.len() as int] == 0
    &&& forall|i: int| #![trigger word[i]]
        0 <= i < word.len() ==> buf[i] != 0 && same_unit(buf[i], (word[i] as int) as u16)
}

proof fn lemma_word_in(buf: Seq<u16>, word: Seq<char>)
    requires
        forall|i: int| #![trigger word[i]]
            0 <= i < word.len() ==> 0 < (word[i] as int) < 0x80 && !('A' <= word[i] <= 'Z'),
    ensures
        holds_word(buf, word) <==> text::ascii_lower(
            text::utf16_lossy(buf.take(text::name_end(buf))),
        ) == word,
{
    let n = text::name_end(buf);
    let name = buf.take(n);
    let s = text::utf16_lossy(name);
    let lower = text::ascii_lower(s);
    text_laws::law_name_ends_at_zero(buf);
    if holds_word(buf, word) {
        let k = word.len() as int;
        if n < k {
            let c = word[n];
            assert(buf[n] != 0);
        } else if n > k {
            assert(buf[k] != 0);
        }
        assert forall|i: int| #![trigger name[i]] 0 <= i < name.len() implies name[i] < 0x80 by {
            let c = word[i];
            assert(same_unit(buf[i], (word[i] as int) as u16));
        }
        lemma_lossy_of_plain(name);
        assert forall|i: int| 0 <= i < k implies lower[i] == word[i] by {
            assert(same_unit(buf[i], (word[i] as int) as u16));
            assert(name[i] == buf[i]);
            assert(s[i] as int == buf[i]);
        }
        assert(lower =~= word);
    }
    if lower == word {
        assert(s.len() == word.len()) by {
            assert(lower.len() == s.len());
        }
        assert forall|i: int| #![trigger s[i]] 0 <= i < s.len() implies (s[i] as int) < 0x80 by {
            assert(lower[i] == word[i]);
            let c = word[i];
        }
        lemma_plain_units(name);
        assert forall|i: int| #![trigger word[i]] 0 <= i < word.len() implies buf[i] != 0 && same_unit(
            buf[i],
            (word[i] as int) as u16,
        ) by {
            assert(lower[i] == word[i]);
            assert(name[i] == buf[i]);
            assert(s[i] as int == name[i]);
        }
    }
}

/// A file system is NTFS exactly if its name, up to the first zero, is these four letters, in either
/// case; a process is the desktop exactly if its program is called `explorer.exe`, likewise.
pub proof fn law_names_in_buffers(buf: Seq<u16>)
    ensures
        volume::names_ntfs(buf) <==> holds_word(buf, seq!['n', 't', 'f', 's']),
        shell_ops::names_explorer(buf) <==> holds_word(
            buf,
            seq!['e', 'x', 'p', 'l', 'o', 'r', 'e', 'r', '.', 'e', 'x', 'e'],
        ),
{
    reveal_strlit("ntfs");
    reveal_strlit("explorer.exe");
    let a = seq!['n', 't', 'f', 's'];
    let b = seq!['e', 'x', 'p', 'l', 'o', 'r', 'e', 'r', '.', 'e', 'x', 'e'];
    assert("ntfs"@ =~= a);
    assert("explorer.exe"@ =~= b);
    lemma_word_in(buf, a);
    lemma_word_in(buf, b);
}

/// The path of a volume stands in a buffer before the first zero; without a zero there is none.
pub proof fn law_volume_paths(buf: Seq<u16>, end: int)
    requires
        0 <= end <= buf.len(),
        forall|i: int| #![trigger buf[i]] 0 <= i < end ==> buf[i] != 0,
    ensures
        end < buf.len() && buf[end] == 0 ==> volume::path_in(buf) == text::utf16_lossy(buf.take(end)),
        end == buf.len() ==> volume::path_in(buf).len() == 0,
{
    if end < buf.len() && buf[end] == 0 {
        lemma_zero_at(buf, 0, end);
    }
    if end == buf.len() {
        lemma_no_zero(buf, 0);
    }
}

proof fn lemma_no_zero(u: Seq<u16>, from: int)
    requires
        0 <= from,
        forall|i: int| #![trigger u[i]] 0 <= i < u.len() ==> u[i] != 0,
    ensures
        text::zero_from(u, from) is None,
    decreases u.len() - from,
{
    if from < u.len() {
        assert(u[from] != 0);
        lemma_no_zero(u, from + 1);
    }
}

/// The fixed disks are tried, and all letters where there is none.
pub proof fn law_candidates(fixed: Seq<char>)
    ensures
        fixed.len() > 0 ==> volume::candidates_of(fixed) == fixed,
        fixed.len() == 0 ==> volume::candidates_of(fixed).len() == 26 && forall|i: int|
            #![trigger volume::candidates_of(fixed)[i]]
            0 <= i < 26 ==> volume::candidates_of(fixed)[i] as int == 'A' as int + i,
{
}

/// The numbers of the shell up to 32 mean a failure, and larger ones do not; of the codes of dialogs,
/// one alone means that the user has changed their mind.
pub proof fn law_shell_codes(n: int, code: u32)
    ensures
        shell_ops::means_failure(n) <==> n < 33,
        shell_ops::means_cancelled(code) <==> code == 0x8007_0000 + 1223,
{
}

/// A terminal gets the rights that are wanted: as they are where this program has just these, fewer
/// where it has more, and more by asking where it has fewer.
pub proof fn law_rights_of_terminals(kind: Seq<char>)
    ensures
        shell_ops::starts_directly(kind + admin_mark(), true),
        !shell_ops::starts_directly(kind + admin_mark(), false),
        !shell_ops::starts_unelevated(kind + admin_mark(), true),
        !shell_ops::starts_unelevated(kind + admin_mark(), false),
        kind.len() < 6 || kind.skip(kind.len() - 6) != admin_mark() ==> {
            &&& shell_ops::starts_unelevated(kind, true)
            &&& !shell_ops::starts_directly(kind, true)
            &&& shell_ops::starts_directly(kind, false)
            &&& !shell_ops::starts_unelevated(kind, false)
        },
{
    law_admin_kinds(kind);
}

/// Something is done with a directory in itself, with a file in the directory above it, and in the
/// current one where none is known.
pub proof fn law_directory_for_a_path(path: Seq<char>, parent: Seq<char>)
    ensures
        shell_ops::dir_for(path, true, Some(parent)) == path,
        shell_ops::dir_for(path, true, None) == path,
        parent.len() > 0 ==> shell_ops::dir_for(path, false, Some(parent)) == parent,
        parent.len() == 0 ==> shell_ops::dir_for(path, false, Some(parent)) == "."@,
        shell_ops::dir_for(path, false, None) == "."@,
{
}

} // verus!
