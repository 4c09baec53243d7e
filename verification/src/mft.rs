//! Records of the NTFS master file table: the files of a volume as the enumeration of the table
//! hands them out, batch by batch.

use vstd::prelude::*;

use crate::bytes;
use crate::bytes::{get, low_u16, read_units};
use crate::history;
use crate::index::VolumeIndex;
use crate::laws;
use crate::model::{VolumeModel, ROOT_FRN};
use crate::py;
use crate::text;
use crate::text::{concat, to_decimal};

verus! {

/// The code by which the enumeration says that the table has been read to its end.
pub const ERROR_HANDLE_EOF: u16 = 38;

/// The length of the fixed fields of a record.
pub const RECORD_HEADER: usize = 60;

/// The attribute of a directory.
pub const ATTRIBUTE_DIRECTORY: u16 = 0x10;

/// Why a volume could not be read.
#[derive(Debug)]
pub enum MftError {
    Io(String),
}

impl MftError {
    /// What went wrong, in words.
    pub fn message(&self) -> (r: &str)
        ensures
            self matches MftError::Io(text) ==> r@ == text@,
    {
        match self {
            MftError::Io(text) => text.as_str(),
        }
    }
}

/// Whether an error code says that the table has been read to its end.
pub open spec fn means_end(code: u32) -> bool {
    code % 0x1_0000 == ERROR_HANDLE_EOF
}

/// Tells from a Win32 error code why the enumeration ended: `None` at the end of the table. Only
/// the low half of the code counts.
pub fn scan_error(code: u32) -> (r: Option<MftError>)
    ensures
        r is None <==> means_end(code),
        r matches Some(MftError::Io(message)) ==> message@ == "FSCTL_ENUM_USN_DATA 失败: win32 错误码 "@
            + text::decimal((code % 0x1_0000) as nat),
{
    let low = low_u16(code as usize);
    if low == ERROR_HANDLE_EOF {
        None
    } else {
        Some(
            MftError::Io(
                concat("FSCTL_ENUM_USN_DATA 失败: win32 错误码 ", to_decimal(low as u64).as_str()),
            ),
        )
    }
}

/// A file as the master file table knows it.
pub struct MftRecord {
    pub frn: u64,
    pub parent: u64,
    pub name: Vec<u16>,
    pub is_dir: bool,
}

/// What a record says.
#[verifier::ext_equal]
pub struct FileModel {
    pub frn: u64,
    pub parent: u64,
    pub name: Seq<u16>,
    pub is_dir: bool,
}

impl View for MftRecord {
    type V = FileModel;

    open spec fn view(&self) -> FileModel {
        FileModel { frn: self.frn, parent: self.parent, name: self.name@, is_dir: self.is_dir }
    }
}

/// What some records say.
pub open spec fn file_models(records: Seq<MftRecord>) -> Seq<FileModel> {
    records.map_values(|r: MftRecord| r@)
}

/// The length of the record at a place.
pub open spec fn record_len(b: Seq<u8>, off: int) -> int {
    bytes::number_at(b, off, 4) as int
}

/// Whether a whole record starts at a place.
pub open spec fn has_record(b: Seq<u8>, off: int) -> bool {
    off + RECORD_HEADER <= b.len() && record_len(b, off) >= RECORD_HEADER && off + record_len(
        b,
        off,
    ) <= b.len()
}

/// The length of a record's name, in bytes.
pub open spec fn name_len(b: Seq<u8>, off: int) -> nat {
    bytes::number_at(b, off + 56, 2)
}

/// Where the name of a record starts.
pub open spec fn name_start(b: Seq<u8>, off: int) -> int {
    off + bytes::number_at(b, off + 58, 2)
}

/// Whether a record holds a name behind its fixed fields.
pub open spec fn has_name(b: Seq<u8>, off: int) -> bool {
    name_len(b, off) >= 2 && name_start(b, off) >= off + RECORD_HEADER && name_start(b, off)
        + name_len(b, off) <= b.len()
}

/// The record at a place.
pub open spec fn record_at(b: Seq<u8>, off: int) -> FileModel {
    FileModel {
        frn: bytes::number_at(b, off + 8, 8) as u64,
        parent: bytes::number_at(b, off + 16, 8) as u64,
        name: bytes::units_at(b, name_start(b, off), name_len(b, off) / 2),
        is_dir: bytes::number_at(b, off + 52, 2) as u16 & ATTRIBUTE_DIRECTORY != 0,
    }
}

/// The records from a place on, as far as whole ones follow each other; those without a name are
/// left out.
pub open spec fn records_from(b: Seq<u8>, off: int) -> Seq<FileModel>
    decreases b.len() - off,
{
    if !has_record(b, off) {
        seq![]
    } else {
        (if has_name(b, off) {
            seq![record_at(b, off)]
        } else {
            seq![]
        }) + records_from(b, off + record_len(b, off))
    }
}

/// What a batch of the enumeration holds: the number at which the next one starts, in the first eight
/// bytes, and the records behind it. `None` where nothing was handed out.
pub open spec fn batch_of(b: Seq<u8>) -> Option<(nat, Seq<FileModel>)> {
    if b.len() < 8 {
        None
    } else {
        Some((bytes::number_at(b, 0, 8), records_from(b, 8)))
    }
}

/// Reads a batch of the enumeration: the number at which the next batch starts, and the records.
/// `None` where nothing was handed out.
pub fn parse_batch(batch: &[u8]) -> (r: Option<(u64, Vec<MftRecord>)>)
    ensures
        match r {
            Some((next, records)) => batch_of(batch@) == Some((next as nat, file_models(records@))),
            None => batch_of(batch@) is None,
        },
{
    let n: usize = batch.len();
    if n < 8 {
        return None;
    }
    let next = get(batch, 0, 8);
    let mut out: Vec<MftRecord> = Vec::new();
    assert(file_models(out@) =~= seq![]);
    let mut off: usize = 8;
    let ghost all = records_from(batch@, 8);
    while off <= n && n - off >= RECORD_HEADER
        invariant_except_break
            n == batch@.len(),
            8 <= off,
            all == file_models(out@) + records_from(batch@, off as int),
        ensures
            all == file_models(out@),
        decreases n - off,
    {
        proof {
            bytes::lemma_power();
        }
        let ghost had = file_models(out@);
        let len = get(batch, off, 4);
        if len < RECORD_HEADER as u64 || len > (n - off) as u64 {
            assert(all =~= had);
            break;
        }
        let name_len = get(batch, off + 56, 2) as usize;
        let name_off = get(batch, off + 58, 2) as usize;
        if name_len >= 2 && name_off >= RECORD_HEADER && name_off <= n - off && name_len <= n - off
            - name_off {
            let base: usize = off + name_off;
            let attributes = get(batch, off + 52, 2) as u16;
            let f = MftRecord {
                frn: get(batch, off + 8, 8),
                parent: get(batch, off + 16, 8),
                name: read_units(batch, base, name_len / 2),
                is_dir: attributes & ATTRIBUTE_DIRECTORY != 0,
            };
            assert(f@ =~= record_at(batch@, off as int));
            out.push(f);
            assert(file_models(out@) =~= had.push(record_at(batch@, off as int)));
        }
        assert(file_models(out@) + records_from(batch@, off + len) =~= all);
        off = off + len as usize;
    }
    Some((next, out))
}

/// The index with a file of the table: the root directory and nameless files are left out.
pub open spec fn absorb_one(m: VolumeModel, f: FileModel) -> VolumeModel {
    if f.frn == ROOT_FRN || f.name.len() == 0 {
        m
    } else {
        m.upsert(f.frn, f.parent, f.name, f.is_dir, py::name_spelling(f.name))
    }
}

/// The index with some files of the table.
pub open spec fn absorbed(m: VolumeModel, files: Seq<FileModel>) -> VolumeModel
    decreases files.len(),
{
    if files.len() == 0 {
        m
    } else {
        absorb_one(absorbed(m, files.drop_last()), files.last())
    }
}

/// All records have a number and a name that is short enough to be stored whole.
pub open spec fn all_short(records: Seq<MftRecord>) -> bool {
    forall|i: int| #![trigger records[i]]
        0 <= i < records.len() ==> records[i].frn != 0 && history::is_short_enough(
            records[i].name@,
            records[i].name@,
        )
}

/// Puts the files of a batch into the index of a volume.
pub fn absorb(v: &mut VolumeIndex, records: &[MftRecord])
    requires
        old(v)@.inv(),
        old(v)@.entries.len() + records@.len() <= u32::MAX,
    ensures
        final(v)@ == absorbed(old(v)@, file_models(records@)),
        final(v)@.inv(),
        final(v)@.entries.len() <= old(v)@.entries.len() + records@.len(),
        old(v)@.wf() && (forall|i: int| #![trigger records@[i]]
            0 <= i < records@.len() ==> records@[i].frn != 0) ==> final(v)@.wf(),
        laws::all_numbered(old(v)@) && (forall|i: int| #![trigger records@[i]]
            0 <= i < records@.len() ==> records@[i].frn != 0) ==> laws::all_numbered(final(v)@),
        history::in_order(old(v)@) && all_short(records@) && final(v)@.addressable()
            ==> history::in_order(final(v)@),
{
    let ghost before = v@;
    let ghost all = file_models(records@);
    assert(all.take(0) =~= seq![]);
    for i in 0..records.len()
        invariant
            all == file_models(records@),
            before.entries.len() + records@.len() <= u32::MAX,
            v@ == absorbed(before, all.take(i as int)),
            v@.inv(),
            v@.entries.len() <= before.entries.len() + i,
            before.wf() && (forall|j: int| #![trigger records@[j]]
                0 <= j < records@.len() ==> records@[j].frn != 0) ==> v@.wf(),
            laws::all_numbered(before) && (forall|j: int| #![trigger records@[j]]
                0 <= j < records@.len() ==> records@[j].frn != 0) ==> laws::all_numbered(v@),
            history::in_order(before) && all_short(records@) && v@.addressable()
                ==> history::in_order(v@),
    {
        proof {
            assert(all.take(i + 1).drop_last() =~= all.take(i as int));
            assert(all.take(i + 1).last() == records@[i as int]@);
        }
        let f = &records[i];
        if f.frn != ROOT_FRN && f.name.len() > 0 {
            proof {
                if laws::all_numbered(v@) && f.frn != 0 {
                    laws::law_upsert_numbered(
                        v@,
                        f.frn,
                        f.parent,
                        f.name@,
                        f.is_dir,
                        py::name_spelling(f.name@),
                    );
                }
            }
            v.upsert(f.frn, f.parent, f.name.as_slice(), f.is_dir);
        }
    }
    assert(all.take(all.len() as int) =~= all);
}

/// The index of a volume, aligned with a position of its journal.
pub fn align(v: &mut VolumeIndex, journal_id: u64, next_usn: i64)
    ensures
        final(v)@ == (VolumeModel { journal_id, next_usn, ..old(v)@ }),
        old(v)@.inv() ==> final(v)@.inv(),
        old(v)@.wf() ==> final(v)@.wf(),
{
    v.journal_id = journal_id;
    v.next_usn = next_usn;
}

} // verus!
