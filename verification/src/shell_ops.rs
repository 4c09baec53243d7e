//! What the context menu does: how terminals are started, with or without administrator rights, and
//! what is put on the clipboard when a file is copied.
//!
//! The program itself runs with administrator rights. An ordinary terminal is started with the
//! rights of the desktop; one with administrator rights inherits them, or asks for them.

use vstd::prelude::*;

use crate::bytes;
use crate::bytes::put;
use crate::snapshot;
use crate::text;
use crate::text::{chars_of, concat, copy_str, from_utf16_lossy, name_in, str_eq, string_of, to_ascii_lowercase, to_utf16};

verus! {

/// The size of the header before the list of files on the clipboard.
pub const DROP_FILES_HEADER: u32 = 20;

/// The code by which a dialog says that it was cancelled.
pub const ERROR_CANCELLED: u32 = 0x8007_04C7;

/// The largest code of the shell that means a failure.
pub const SHELL_FAILURE_LIMIT: isize = 32;

/// The full path of a system program, so that the search path does not matter. Other names stay.
pub open spec fn system_path(root: Seq<char>, name: Seq<char>) -> Seq<char> {
    if name == "cmd"@ {
        root + "\\System32\\cmd.exe"@
    } else if name == "powershell"@ {
        root + "\\System32\\WindowsPowerShell\\v1.0\\powershell.exe"@
    } else {
        name
    }
}

/// The system directory, by the value of `SystemRoot`.
pub open spec fn root_of(root: Option<&str>) -> Seq<char> {
    match root {
        Some(r) => r@,
        None => "C:\\Windows"@,
    }
}

/// The full path of a system program; `root` is the value of `SystemRoot`, if it has one.
pub fn system_exe(root: Option<&str>, name: &str) -> (r: String)
    ensures
        r@ == system_path(root_of(root), name@),
{
    let dir = match root {
        Some(d) => d,
        None => "C:\\Windows",
    };
    if str_eq(name, "cmd") {
        concat(dir, "\\System32\\cmd.exe")
    } else if str_eq(name, "powershell") {
        concat(dir, "\\System32\\WindowsPowerShell\\v1.0\\powershell.exe")
    } else {
        copy_str(name)
    }
}

/// A text without another at its end, as often as it stands there.
pub open spec fn without_ending(s: Seq<char>, ending: Seq<char>) -> Seq<char>
    decreases s.len(),
{
    if ending.len() > 0 && ending.is_suffix_of(s) {
        without_ending(s.take(s.len() - ending.len()), ending)
    } else {
        s
    }
}

/// Whether a text ends in another.
fn chars_end_with(s: &[char], n: usize, ending: &[char]) -> (r: bool)
    requires
        n <= s@.len(),
    ensures
        r == ending@.is_suffix_of(s@.take(n as int)),
{
    let ghost head = s@.take(n as int);
    if n < ending.len() {
        return false;
    }
    let at: usize = n - ending.len();
    for i in 0..ending.len()
        invariant
            head == s@.take(n as int),
            n <= s@.len(),
            at + ending@.len() == n,
            forall|j: int| 0 <= j < i ==> s@[at + j] == ending@[j],
    {
        if s[at + i] != ending[i] {
            assert(head.subrange(at as int, n as int)[i as int] != ending@[i as int]);
            return false;
        }
    }
    assert(ending@ =~= head.subrange(at as int, n as int));
    true
}

fn cut_ending(s: &[char], ending: &[char]) -> (r: Vec<char>)
    requires
        ending@.len() > 0,
    ensures
        r@ == without_ending(s@, ending@),
{
    let mut n: usize = s.len();
    assert(s@.take(n as int) =~= s@);
    while chars_end_with(s, n, ending)
        invariant
            ending@.len() > 0,
            n <= s@.len(),
            without_ending(s@, ending@) == without_ending(s@.take(n as int), ending@),
        decreases n,
    {
        let ghost head = s@.take(n as int);
        assert(head.take(head.len() - ending@.len()) =~= s@.take(n - ending@.len()));
        n = n - ending.len();
    }
    let mut out: Vec<char> = Vec::new();
    for i in 0..n
        invariant
            n <= s@.len(),
            out@ == s@.take(i as int),
    {
        out.push(s[i]);
        assert(out@ =~= s@.take(i + 1));
    }
    out
}

/// A text with its single quotes doubled, as PowerShell wants it between single quotes.
pub open spec fn quoted(s: Seq<char>) -> Seq<char>
    decreases s.len(),
{
    if s.len() == 0 {
        seq![]
    } else if s.last() == '\'' {
        quoted(s.drop_last()).push('\'').push('\'')
    } else {
        quoted(s.drop_last()).push(s.last())
    }
}

/// The text that PowerShell reads between single quotes: two quotes stand for one, and a single one
/// would end the text.
pub open spec fn unquoted(s: Seq<char>) -> Option<Seq<char>>
    decreases s.len(),
{
    if s.len() == 0 {
        Some(seq![])
    } else if s.last() != '\'' {
        match unquoted(s.drop_last()) {
            Some(t) => Some(t.push(s.last())),
            None => None,
        }
    } else if s.len() >= 2 && s[s.len() - 2] == '\'' {
        match unquoted(s.take(s.len() - 2)) {
            Some(t) => Some(t.push('\'')),
            None => None,
        }
    } else {
        None
    }
}

/// Doubles the single quotes of a text.
pub fn quote(s: &str) -> (r: String)
    ensures
        r@ == quoted(s@),
{
    let chars = chars_of(s);
    let mut out: Vec<char> = Vec::new();
    assert(chars@.take(0) =~= seq![]);
    for i in 0..chars.len()
        invariant
            chars@ == s@,
            out@ == quoted(chars@.take(i as int)),
    {
        assert(chars@.take(i + 1).drop_last() =~= chars@.take(i as int));
        out.push(chars[i]);
        if chars[i] == '\'' {
            out.push('\'');
        }
    }
    assert(chars@.take(chars@.len() as int) =~= chars@);
    string_of(out.as_slice())
}

/// A directory whose quotes were doubled is read back as it was: none of its characters ends the
/// text.
pub proof fn law_quote_round_trip(s: Seq<char>)
    ensures
        unquoted(quoted(s)) == Some(s),
    decreases s.len(),
{
    if s.len() > 0 {
        law_quote_round_trip(s.drop_last());
        let q = quoted(s.drop_last());
        assert(s.drop_last().push(s.last()) =~= s);
        if s.last() == '\'' {
            let all = q.push('\'').push('\'');
            assert(all.take(all.len() - 2) =~= q);
        } else {
            assert(q.push(s.last()).drop_last() =~= q);
        }
    } else {
        assert(s =~= seq![]);
    }
}

/// How a terminal is started.
pub enum Launch {
    /// With the rights of this program.
    Direct,
    /// With the rights of the desktop; where that fails, with those of this program.
    Unelevated,
    /// With administrator rights that are asked for, and these parameters.
    RunAs(String),
}

/// A program, and how it is started.
pub struct TerminalPlan {
    pub exe: String,
    pub launch: Launch,
}

/// The kind of a terminal without the mark for administrator rights.
pub open spec fn base_kind(kind: Seq<char>) -> Seq<char> {
    without_ending(kind, "_admin"@)
}

/// Whether a terminal is to have administrator rights.
pub open spec fn wants_admin(kind: Seq<char>) -> bool {
    "_admin"@.is_suffix_of(kind)
}

/// The parameters that take a terminal to a directory.
pub open spec fn terminal_params(base: Seq<char>, dir: Seq<char>) -> Seq<char> {
    if base == "cmd"@ {
        "/s /k pushd \""@ + dir + "\""@
    } else {
        "-NoLogo -NoExit -Command Set-Location -LiteralPath '"@ + quoted(dir) + "'"@
    }
}

/// Whether a terminal is started with the rights that this program has.
pub open spec fn starts_directly(kind: Seq<char>, elevated: bool) -> bool {
    wants_admin(kind) == elevated
}

/// Whether a terminal is started with fewer rights than this program has.
pub open spec fn starts_unelevated(kind: Seq<char>, elevated: bool) -> bool {
    !wants_admin(kind) && elevated
}

/// Plans the start of a terminal in a directory: `kind` is `cmd` or `powershell`, with `_admin`
/// behind it for administrator rights; `elevated` tells whether this program has them.
pub fn plan_terminal(kind: &str, dir: &str, elevated: bool, root: Option<&str>) -> (r: Result<
    TerminalPlan,
    String,
>)
    ensures
        ({
            let base = base_kind(kind@);
            if base == "cmd"@ || base == "powershell"@ {
                &&& r matches Ok(plan)
                &&& plan.exe@ == system_path(root_of(root), base)
                &&& plan.launch is Direct <==> starts_directly(kind@, elevated)
                &&& plan.launch is Unelevated <==> starts_unelevated(kind@, elevated)
                &&& plan.launch matches Launch::RunAs(params) ==> params@ == terminal_params(
                    base,
                    dir@,
                )
            } else {
                r matches Err(e) && e@ == "未知终端类型: "@ + kind@
            }
        }),
{
    let chars = chars_of(kind);
    let mark = chars_of("_admin");
    proof {
        reveal_strlit("_admin");
        assert(chars@.take(chars@.len() as int) =~= chars@);
    }
    let as_admin = chars_end_with(chars.as_slice(), chars.len(), mark.as_slice());
    let base_chars = cut_ending(chars.as_slice(), mark.as_slice());
    let base = string_of(base_chars.as_slice());
    let is_cmd = str_eq(base.as_str(), "cmd");
    if !is_cmd && !str_eq(base.as_str(), "powershell") {
        return Err(concat("未知终端类型: ", kind));
    }
    let exe = system_exe(root, base.as_str());
    let launch = if as_admin {
        if elevated {
            Launch::Direct
        } else if is_cmd {
            Launch::RunAs(concat(concat("/s /k pushd \"", dir).as_str(), "\""))
        } else {
            Launch::RunAs(
                concat(
                    concat(
                        "-NoLogo -NoExit -Command Set-Location -LiteralPath '",
                        quote(dir).as_str(),
                    ).as_str(),
                    "'",
                ),
            )
        }
    } else if elevated {
        Launch::Unelevated
    } else {
        Launch::Direct
    };
    Ok(TerminalPlan { exe, launch })
}

/// The command line that starts a program whose path may hold spaces.
pub fn command_line(exe: &str) -> (r: String)
    ensures
        r@ == "\""@ + exe@ + "\""@,
{
    concat(concat("\"", exe).as_str(), "\"")
}

/// The directory in which something is done with a path.
pub open spec fn dir_for(path: Seq<char>, is_dir: bool, parent: Option<Seq<char>>) -> Seq<char> {
    if is_dir {
        path
    } else {
        match parent {
            Some(d) => if d.len() > 0 {
                d
            } else {
                "."@
            },
            None => "."@,
        }
    }
}

/// Where something is done with a path: in the path itself if it is a directory, else in the
/// directory above it, and in the current one where there is none.
pub fn target_dir<'a>(path: &'a str, is_dir: bool, parent: Option<&'a str>) -> (r: &'a str)
    ensures
        r@ == dir_for(
            path@,
            is_dir,
            match parent {
                Some(d) => Some(d@),
                None => None,
            },
        ),
{
    if is_dir {
        return path;
    }
    match parent {
        Some(d) => if chars_of(d).len() > 0 {
            d
        } else {
            "."
        },
        None => ".",
    }
}

/// Whether a number that the shell returned means a failure.
pub open spec fn means_failure(code: int) -> bool {
    code <= SHELL_FAILURE_LIMIT
}

/// Whether the shell failed to start something, by the number it returned.
pub fn shell_failed(code: isize) -> (r: bool)
    ensures
        r == means_failure(code as int),
{
    code <= SHELL_FAILURE_LIMIT
}

/// Whether an error code means that a dialog was cancelled.
pub open spec fn means_cancelled(code: u32) -> bool {
    code == ERROR_CANCELLED
}

/// Whether a dialog failed, by its error code; that it was cancelled is no failure.
pub fn dialog_failed(code: u32) -> (r: bool)
    ensures
        r == !means_cancelled(code),
{
    code != ERROR_CANCELLED
}

/// Whether a buffer names the program of the desktop.
pub open spec fn names_explorer(exe_name: Seq<u16>) -> bool {
    text::ascii_lower(text::utf16_lossy(exe_name.take(text::name_end(exe_name))))
        == "explorer.exe"@
}

/// Whether a process is that of the desktop, by the name of its program.
pub fn is_explorer(exe_name: &[u16]) -> (r: bool)
    ensures
        r == names_explorer(exe_name@),
{
    let name = from_utf16_lossy(name_in(exe_name));
    str_eq(to_ascii_lowercase(name.as_str()).as_str(), "explorer.exe")
}

/// What is put on the clipboard when a file is copied: a header that tells where the list of files
/// begins and that it is in UTF-16, then the path, and a zero after it and after the list.
pub open spec fn drop_files_bytes(path: Seq<char>) -> Seq<u8> {
    bytes::to_le(DROP_FILES_HEADER as nat, 4) + bytes::to_le(0, 4) + bytes::to_le(0, 4)
        + bytes::to_le(0, 4) + bytes::to_le(1, 4) + snapshot::units_bytes(
        text::utf16(path).push(0).push(0),
    )
}

/// What is put on the clipboard when a file is copied.
pub fn drop_files(path: &str) -> (r: Vec<u8>)
    ensures
        r@ == drop_files_bytes(path@),
{
    let mut wide = to_utf16(path);
    wide.push(0);
    wide.push(0);
    let mut out: Vec<u8> = Vec::new();
    put(&mut out, DROP_FILES_HEADER as u64, 4);
    put(&mut out, 0, 4);
    put(&mut out, 0, 4);
    put(&mut out, 0, 4);
    put(&mut out, 1, 4);
    snapshot::put_units(&mut out, wide.as_slice());
    assert(out@ =~= drop_files_bytes(path@));
    out
}

} // verus!
