//! The NTFS change journal: records of files created, deleted and renamed, applied to the index.

use vstd::prelude::*;

use crate::bytes;
use crate::bytes::{get, read_units, to_signed};
use crate::history;
use crate::index::VolumeIndex;
use crate::laws;
use crate::matcher;
use crate::matcher::SearchOptions;
use crate::model::VolumeModel;
use crate::py;
use crate::search_laws;
use crate::text;
use crate::text::{concat, to_decimal};

verus! {

pub const REASON_FILE_CREATE: u32 = 0x0000_0100;

pub const REASON_FILE_DELETE: u32 = 0x0000_0200;

pub const REASON_RENAME_OLD: u32 = 0x0000_1000;

pub const REASON_RENAME_NEW: u32 = 0x0000_2000;

pub const ERROR_JOURNAL_DELETE_DETECTED: u32 = 1178;

pub const ERROR_JOURNAL_NOT_ACTIVE: u32 = 1179;

pub const ERROR_TIMEOUT: u32 = 1460;

/// The attribute of a directory.
pub const ATTRIBUTE_DIRECTORY: u32 = 0x10;

/// A record of the change journal.
#[derive(Debug)]
pub struct UsnUpdate {
    pub frn: u64,
    pub parent: u64,
    pub usn: i64,
    pub reason: u32,
    pub is_dir: bool,
    pub name: Vec<u16>,
}

/// What a record of the change journal says.
#[verifier::ext_equal]
pub struct UpdateModel {
    pub frn: u64,
    pub parent: u64,
    pub usn: i64,
    pub reason: u32,
    pub is_dir: bool,
    pub name: Seq<u16>,
}

impl View for UsnUpdate {
    type V = UpdateModel;

    open spec fn view(&self) -> UpdateModel {
        UpdateModel {
            frn: self.frn,
            parent: self.parent,
            usn: self.usn,
            reason: self.reason,
            is_dir: self.is_dir,
            name: self.name@,
        }
    }
}

impl Clone for UsnUpdate {
    fn clone(&self) -> (r: UsnUpdate)
        ensures
            r@ == self@,
    {
        let mut name: Vec<u16> = Vec::new();
        name.extend_from_slice(self.name.as_slice());
        assert(name@ =~= self.name@);
        UsnUpdate {
            frn: self.frn,
            parent: self.parent,
            usn: self.usn,
            reason: self.reason,
            is_dir: self.is_dir,
            name,
        }
    }
}

/// Why the journal could not be read.
#[derive(Debug)]
pub enum UsnError {
    /// The journal was deleted or has wrapped around: the volume must be indexed anew.
    JournalDeleted,
    /// No new record arrived in time; try again.
    Timeout,
    Io(String),
}

/// What the records of a batch say.
pub open spec fn update_models(records: Seq<UsnUpdate>) -> Seq<UpdateModel> {
    records.map_values(|u: UsnUpdate| u@)
}

/// Whether a Win32 error code says that the journal is lost.
pub open spec fn means_lost(code: u32) -> bool {
    code == ERROR_JOURNAL_DELETE_DETECTED || code == ERROR_JOURNAL_NOT_ACTIVE
}

/// Whether a Win32 error code says that nothing came in time.
pub open spec fn means_timeout(code: u32) -> bool {
    code == ERROR_TIMEOUT
}

/// Tells from a Win32 error code what became of the journal. Any other code is reported after the
/// given text.
pub fn map_journal_err(prefix: &str, code: u32) -> (r: UsnError)
    ensures
        r is JournalDeleted <==> means_lost(code),
        r is Timeout <==> means_timeout(code),
        r matches UsnError::Io(message) ==> message@ == prefix@ + ": win32 "@ + text::decimal(
            code as nat,
        ),
{
    if code == ERROR_JOURNAL_DELETE_DETECTED || code == ERROR_JOURNAL_NOT_ACTIVE {
        UsnError::JournalDeleted
    } else if code == ERROR_TIMEOUT {
        UsnError::Timeout
    } else {
        UsnError::Io(concat(concat(prefix, ": win32 ").as_str(), to_decimal(code as u64).as_str()))
    }
}

/// The length of a record in a journal buffer.
pub open spec fn record_len(b: Seq<u8>, off: int) -> int {
    bytes::number_at(b, off, 4) as int
}

/// Whether a whole record starts at a place of the `n` bytes that were read.
pub open spec fn has_record(b: Seq<u8>, n: int, off: int) -> bool {
    off + 8 <= n && record_len(b, off) > 0 && off + record_len(b, off) <= n
}

/// Whether a record is of version 3, which has wider file reference numbers.
pub open spec fn is_wide(b: Seq<u8>, off: int) -> bool {
    bytes::number_at(b, off + 4, 2) == 3
}

/// Where the record after the one at a place starts: records are aligned to 8 bytes.
pub open spec fn next_record(b: Seq<u8>, off: int) -> int {
    off + (record_len(b, off) + 7) / 8 * 8
}

/// The fixed fields of each record lie in the buffer.
pub open spec fn readable_from(b: Seq<u8>, n: int, off: int) -> bool
    decreases n - off + 8,
{
    if has_record(b, n, off) {
        off + (if is_wide(b, off) {
            76int
        } else {
            60
        }) <= b.len() && readable_from(b, n, next_record(b, off))
    } else {
        true
    }
}

/// Where the length of the name stands in a record, followed by its offset.
pub open spec fn name_field(b: Seq<u8>, off: int) -> int {
    off + if is_wide(b, off) {
        72int
    } else {
        56
    }
}

/// Whether a record holds a name within its bounds.
pub open spec fn has_name(b: Seq<u8>, off: int) -> bool {
    let at = name_field(b, off);
    let len = bytes::number_at(b, at, 2);
    len >= 2 && bytes::number_at(b, at + 2, 2) + len <= record_len(b, off)
}

/// The record at a place.
pub open spec fn record_at(b: Seq<u8>, off: int) -> UpdateModel {
    let wide = is_wide(b, off);
    let at = name_field(b, off);
    UpdateModel {
        frn: bytes::number_at(b, off + 8, 8) as u64,
        parent: bytes::number_at(
            b,
            off + if wide {
                24int
            } else {
                16
            },
            8,
        ) as u64,
        usn: bytes::signed(
            bytes::number_at(
                b,
                off + if wide {
                    40int
                } else {
                    24
                },
                8,
            ),
        ),
        reason: bytes::number_at(
            b,
            off + if wide {
                56int
            } else {
                40
            },
            4,
        ) as u32,
        is_dir: bytes::number_at(b, at - 4, 4) as u32 & ATTRIBUTE_DIRECTORY != 0,
        name: bytes::units_at(
            b,
            off + bytes::number_at(b, at + 2, 2),
            bytes::number_at(b, at, 2) / 2,
        ),
    }
}

/// The records from a place on, as far as whole ones follow each other; those without a name are
/// left out.
pub open spec fn records_from(b: Seq<u8>, n: int, off: int) -> Seq<UpdateModel>
    decreases n - off + 8,
{
    if !has_record(b, n, off) {
        seq![]
    } else {
        (if has_name(b, off) {
            seq![record_at(b, off)]
        } else {
            seq![]
        }) + records_from(b, n, next_record(b, off))
    }
}

/// Whether the fixed fields of each of the records in the first `n` bytes lie in the buffer.
pub fn is_readable(buf: &[u8], n: usize) -> (r: bool)
    requires
        n <= buf@.len(),
    ensures
        r == readable_from(buf@, n as int, 8),
{
    let mut off: usize = 8;
    assert(buf.len() <= usize::MAX);
    while off <= n && n - off >= 8
        invariant
            n <= buf@.len() <= usize::MAX,
            8 <= off,
            readable_from(buf@, n as int, 8) == readable_from(buf@, n as int, off as int),
        decreases n - off + 8,
    {
        proof {
            bytes::lemma_power();
        }
        let len = get(buf, off, 4);
        if len == 0 || len > (n - off) as u64 {
            return true;
        }
        let wide = get(buf, off + 4, 2) == 3;
        let fixed: usize = if wide {
            76
        } else {
            60
        };
        if buf.len() - off < fixed {
            return false;
        }
        let step: u64 = (len + 7) / 8 * 8;
        assert(next_record(buf@, off as int) == off + step);
        if step > (usize::MAX - off) as u64 {
            assert(readable_from(buf@, n as int, next_record(buf@, off as int)));
            assert(readable_from(buf@, n as int, off as int));
            return true;
        }
        off = off + step as usize;
    }
    true
}

/// What a journal buffer holds of which `n` bytes were filled: the records, and the position that
/// follows them.
pub open spec fn journal_of(b: Seq<u8>, n: int, start_usn: i64) -> (Seq<UpdateModel>, i64) {
    if n < 16 {
        (seq![], start_usn)
    } else {
        (records_from(b, n, 8), bytes::signed(bytes::number_at(b, 0, 8)))
    }
}

/// Reads the records of a journal buffer, of which `n` bytes were filled, and the journal position
/// that follows them; a buffer without records leaves the position where it was.
pub fn parse_journal(buf: &[u8], n: usize, start_usn: i64) -> (r: (Vec<UsnUpdate>, i64))
    requires
        n <= buf@.len(),
        readable_from(buf@, n as int, 8),
    ensures
        (update_models(r.0@), r.1) == journal_of(buf@, n as int, start_usn),
{
    let mut out: Vec<UsnUpdate> = Vec::new();
    assert(update_models(out@) =~= seq![]);
    if n < 16 {
        return (out, start_usn);
    }
    assert(buf.len() <= usize::MAX);
    let next_usn = to_signed(get(buf, 0, 8));
    let mut off: usize = 8;
    let ghost all = records_from(buf@, n as int, 8);
    while off <= n && n - off >= 8
        invariant_except_break
            n <= buf@.len() <= usize::MAX,
            8 <= off,
            readable_from(buf@, n as int, off as int),
            all == update_models(out@) + records_from(buf@, n as int, off as int),
        ensures
            all == update_models(out@),
        decreases n - off + 8,
    {
        proof {
            bytes::lemma_power();
        }
        let ghost had = update_models(out@);
        let len = get(buf, off, 4);
        if len == 0 || len > (n - off) as u64 {
            assert(all =~= had);
            break;
        }
        let wide = get(buf, off + 4, 2) == 3;
        let (parent_at, usn_at, reason_at, name_at): (usize, usize, usize, usize) = if wide {
            (off + 24, off + 40, off + 56, off + 72)
        } else {
            (off + 16, off + 24, off + 40, off + 56)
        };
        let name_len = get(buf, name_at, 2);
        let name_off = get(buf, name_at + 2, 2);
        if name_len >= 2 && name_off + name_len <= len {
            let attributes = get(buf, name_at - 4, 4) as u32;
            let u = UsnUpdate {
                frn: get(buf, off + 8, 8),
                parent: get(buf, parent_at, 8),
                usn: to_signed(get(buf, usn_at, 8)),
                reason: get(buf, reason_at, 4) as u32,
                is_dir: attributes & ATTRIBUTE_DIRECTORY != 0,
                name: read_units(buf, off + name_off as usize, (name_len / 2) as usize),
            };
            assert(u@ =~= record_at(buf@, off as int));
            out.push(u);
            assert(update_models(out@) =~= had.push(record_at(buf@, off as int)));
        }
        let ghost rest = records_from(buf@, n as int, next_record(buf@, off as int));
        assert(update_models(out@) + rest =~= all);
        let step: u64 = (len + 7) / 8 * 8;
        assert(next_record(buf@, off as int) == off + step);
        if step > (usize::MAX - off) as u64 {
            assert(rest =~= seq![]);
            assert(all =~= update_models(out@));
            break;
        }
        off = off + step as usize;
    }
    (out, next_usn)
}

/// The index after a record: a deletion or the old half of a renaming removes the file, a creation
/// or the new half of a renaming inserts it. Other records, and those without a number or a name,
/// change nothing.
pub open spec fn apply_update(m: VolumeModel, u: UpdateModel) -> VolumeModel {
    if u.frn == 0 || u.name.len() == 0 {
        m
    } else {
        let without = if removes(u.reason) {
            m.remove(u.frn)
        } else {
            m
        };
        if inserts(u.reason) {
            without.upsert(u.frn, u.parent, u.name, u.is_dir, py::name_spelling(u.name))
        } else {
            without
        }
    }
}

/// Whether a record says that a file has lost its name.
pub open spec fn removes(reason: u32) -> bool {
    reason & (REASON_FILE_DELETE | REASON_RENAME_OLD) != 0
}

/// Whether a record says that a file has got a name.
pub open spec fn inserts(reason: u32) -> bool {
    reason & (REASON_FILE_CREATE | REASON_RENAME_NEW) != 0
}

/// How many changes a record makes.
pub open spec fn changes(m: VolumeModel, u: UpdateModel) -> nat {
    if u.frn == 0 || u.name.len() == 0 {
        0
    } else {
        (if removes(u.reason) && m.frn_map.contains_key(u.frn) {
            1nat
        } else {
            0
        }) + (if inserts(u.reason) {
            1nat
        } else {
            0
        })
    }
}

/// The index after some records.
pub open spec fn applied(m: VolumeModel, records: Seq<UpdateModel>) -> VolumeModel
    decreases records.len(),
{
    if records.len() == 0 {
        m
    } else {
        apply_update(applied(m, records.drop_last()), records.last())
    }
}

/// How many changes some records make.
pub open spec fn change_count(m: VolumeModel, records: Seq<UpdateModel>) -> nat
    decreases records.len(),
{
    if records.len() == 0 {
        0
    } else {
        change_count(m, records.drop_last()) + changes(
            applied(m, records.drop_last()),
            records.last(),
        )
    }
}

/// Whether a record can change anything: it has a number and a name, and says that a file has lost
/// or got its name.
pub open spec fn counts(u: UpdateModel) -> bool {
    u.frn != 0 && u.name.len() > 0 && (removes(u.reason) || inserts(u.reason))
}

/// How many of some records insert a file.
pub open spec fn insert_count(records: Seq<UpdateModel>) -> nat
    decreases records.len(),
{
    if records.len() == 0 {
        0
    } else {
        insert_count(records.drop_last()) + if counts(records.last()) && inserts(
            records.last().reason,
        ) {
            1nat
        } else {
            0
        }
    }
}

/// Fewer records insert fewer files.
proof fn lemma_inserts_grow(records: Seq<UpdateModel>, i: int)
    requires
        0 <= i <= records.len(),
    ensures
        insert_count(records.take(i)) <= insert_count(records),
    decreases records.len() - i,
{
    if i < records.len() {
        assert(records.take(i + 1).drop_last() =~= records.take(i));
        lemma_inserts_grow(records, i + 1);
    } else {
        assert(records.take(i) =~= records);
    }
}

/// A record inserts one file at most.
pub proof fn lemma_inserts_bounded(records: Seq<UpdateModel>)
    ensures
        insert_count(records) <= records.len(),
    decreases records.len(),
{
    if records.len() > 0 {
        lemma_inserts_bounded(records.drop_last());
    }
}

/// The names of some records are short enough to be stored whole, and the pools of the index can be
/// addressed all the while.
pub open spec fn all_fit(m: VolumeModel, records: Seq<UpdateModel>) -> bool {
    forall|i: int| #![trigger records[i]]
        0 <= i < records.len() ==> history::is_short_enough(records[i].name, records[i].name)
            && applied(m, records.take(i + 1)).addressable()
}

/// Applies a batch of records to the index of a volume and tells how many changes were made.
///
/// A renaming is a pair of records, one that removes the old name and one that inserts the new one.
pub fn apply_updates(vi: &mut VolumeIndex, records: &[UsnUpdate]) -> (r: usize)
    requires
        old(vi)@.wf(),
        old(vi)@.entries.len() + insert_count(update_models(records@)) <= u32::MAX,
        records@.len() * 2 <= usize::MAX,
    ensures
        final(vi)@ == applied(old(vi)@, update_models(records@)),
        final(vi)@.wf(),
        final(vi)@.entries.len() <= old(vi)@.entries.len() + insert_count(update_models(records@)),
        r == change_count(old(vi)@, update_models(records@)),
        history::in_order(old(vi)@) && all_fit(old(vi)@, update_models(records@))
            ==> history::in_order(final(vi)@),
{
    let ghost before = vi@;
    let ghost all = update_models(records@);
    let mut count: usize = 0;
    assert(all.take(0) =~= seq![]);
    for i in 0..records.len()
        invariant
            all == update_models(records@),
            before.entries.len() + insert_count(all) <= u32::MAX,
            records@.len() * 2 <= usize::MAX,
            vi@ == applied(before, all.take(i as int)),
            vi@.wf(),
            vi@.entries.len() <= before.entries.len() + insert_count(all.take(i as int)),
            count == change_count(before, all.take(i as int)),
            count <= i * 2,
            history::in_order(before) && all_fit(before, all) ==> history::in_order(vi@),
    {
        proof {
            lemma_inserts_grow(all, i + 1);
            assert(all.take(i + 1).drop_last() =~= all.take(i as int));
            assert(all.take(i + 1).last() == records@[i as int]@);
        }
        let ghost now = vi@;
        let u = &records[i];
        if u.frn != 0 && u.name.len() > 0 {
            if u.reason & (REASON_FILE_DELETE | REASON_RENAME_OLD) != 0 {
                if vi.remove(u.frn) {
                    count = count + 1;
                }
            }
            if u.reason & (REASON_FILE_CREATE | REASON_RENAME_NEW) != 0 {
                vi.upsert(u.frn, u.parent, u.name.as_slice(), u.is_dir);
                count = count + 1;
            }
        }
    }
    assert(all.take(all.len() as int) =~= all);
    count
}

/// Records take effect in order, so that they can be applied in batches.
pub proof fn law_apply_in_batches(m: VolumeModel, a: Seq<UpdateModel>, b: Seq<UpdateModel>)
    ensures
        applied(m, a + b) == applied(applied(m, a), b),
        insert_count(a + b) == insert_count(a) + insert_count(b),
        change_count(m, a + b) == change_count(m, a) + change_count(applied(m, a), b),
    decreases b.len(),
{
    if b.len() == 0 {
        assert(a + b =~= a);
    } else {
        assert((a + b).drop_last() =~= a + b.drop_last());
        assert((a + b).last() == b.last());
        law_apply_in_batches(m, a, b.drop_last());
    }
}

/// A record that says neither that a file lost its name nor that it got one changes nothing.
pub proof fn law_other_records_ignored(m: VolumeModel, u: UpdateModel)
    requires
        !removes(u.reason),
        !inserts(u.reason),
    ensures
        apply_update(m, u) == m,
        changes(m, u) == 0,
{
}

/// The records that can change anything.
pub open spec fn counting(records: Seq<UpdateModel>) -> Seq<UpdateModel>
    decreases records.len(),
{
    if records.len() == 0 {
        seq![]
    } else if counts(records.last()) {
        counting(records.drop_last()).push(records.last())
    } else {
        counting(records.drop_last())
    }
}

/// A batch does what its records without a number, without a name or with other reasons left out
/// would do; a batch of only such records does nothing.
pub proof fn law_only_counting_records_count(m: VolumeModel, records: Seq<UpdateModel>)
    ensures
        applied(m, records) == applied(m, counting(records)),
        insert_count(records) == insert_count(counting(records)),
        change_count(m, records) == change_count(m, counting(records)),
        counting(records).len() == 0 ==> applied(m, records) == m && change_count(m, records) == 0,
    decreases records.len(),
{
    if records.len() > 0 {
        let rest = records.drop_last();
        law_only_counting_records_count(m, rest);
        if counts(records.last()) {
            assert(counting(records).drop_last() =~= counting(rest));
        }
    }
}

/// The deletion of a file that is not indexed changes nothing.
pub proof fn law_unknown_deletion_is_ignored(m: VolumeModel, u: UpdateModel)
    requires
        !m.frn_map.contains_key(u.frn),
        !inserts(u.reason),
    ensures
        apply_update(m, u) == m,
        changes(m, u) == 0,
{
}

/// Records keep the index well-formed.
pub proof fn law_apply_keeps(m: VolumeModel, u: UpdateModel)
    requires
        m.wf(),
        m.entries.len() < u32::MAX,
    ensures
        apply_update(m, u).wf(),
        apply_update(m, u).entries.len() <= m.entries.len() + 1,
{
    if u.frn != 0 && u.name.len() > 0 {
        laws::lemma_remove_wf(m, u.frn);
        let without = if removes(u.reason) {
            m.remove(u.frn)
        } else {
            m
        };
        if inserts(u.reason) {
            laws::lemma_upsert_inv(
                without,
                u.frn,
                u.parent,
                u.name,
                u.is_dir,
                py::name_spelling(u.name),
            );
        }
    }
}

/// A file that was created is indexed, under the name and the parent of the record, and all other
/// files are as before.
pub proof fn law_created_is_indexed(m: VolumeModel, u: UpdateModel)
    requires
        m.wf(),
        m.addressable(),
        m.entries.len() < u32::MAX,
        !m.frn_map.contains_key(u.frn),
        u.frn != 0,
        0 < u.name.len() <= u16::MAX,
        py::name_spelling(u.name) matches Some(p) ==> p.len() <= u16::MAX,
        inserts(u.reason),
    ensures
        apply_update(m, u).live().remove(u.frn) == m.live(),
        apply_update(m, u).live().contains_key(u.frn),
        apply_update(m, u).live()[u.frn].name == u.name,
        apply_update(m, u).live()[u.frn].parent == u.parent,
        apply_update(m, u).entries.len() == m.entries.len() + 1,
{
    let py = py::name_spelling(u.name);
    laws::law_upsert_live(m, u.frn, u.parent, u.name, u.is_dir, py);
    let after = apply_update(m, u);
    assert(after == m.upsert(u.frn, u.parent, u.name, u.is_dir, py));
    assert(!m.live().contains_key(u.frn));
    assert(after.live().remove(u.frn) =~= m.live());
}

/// A file that was deleted is no longer indexed, and all other files are as before.
pub proof fn law_deleted_is_gone(m: VolumeModel, u: UpdateModel)
    requires
        m.wf(),
        m.addressable(),
        u.frn != 0,
        u.name.len() > 0,
        removes(u.reason),
        !inserts(u.reason),
    ensures
        apply_update(m, u).live() == m.live().remove(u.frn),
{
    laws::law_remove_live(m, u.frn);
}

/// A renaming leaves the file indexed under its new name only, and all other files as before.
pub proof fn law_renamed(m: VolumeModel, gone: UpdateModel, come: UpdateModel)
    requires
        m.wf(),
        m.addressable(),
        m.frn_map.contains_key(gone.frn),
        gone.frn == come.frn,
        gone.frn != 0,
        gone.name.len() > 0,
        0 < come.name.len() <= u16::MAX,
        py::name_spelling(come.name) matches Some(p) ==> p.len() <= u16::MAX,
        removes(gone.reason),
        !inserts(gone.reason),
        inserts(come.reason),
        !removes(come.reason),
    ensures
        ({
            let after = applied(m, seq![gone, come]);
            &&& after.live().remove(come.frn) == m.live().remove(come.frn)
            &&& after.live().contains_key(come.frn)
            &&& after.live()[come.frn].name == come.name
            &&& after.live()[come.frn].parent == come.parent
            &&& after.entries.len() == m.entries.len()
        }),
{
    let records = seq![gone, come];
    assert(records.drop_last() =~= seq![gone]);
    assert(seq![gone].drop_last() =~= seq![]);
    let without = apply_update(m, gone);
    assert(applied(m, seq![gone]) == without) by {
        assert(applied(m, seq![gone].drop_last()) == m);
        assert(seq![gone].last() == gone);
    }
    assert(records.last() == come);
    law_deleted_is_gone(m, gone);
    laws::lemma_remove_wf(m, gone.frn);
    laws::lemma_remove_sizes(m, gone.frn);
    assert(!without.live().contains_key(come.frn));
    law_created_is_indexed(without, come);
}

/// A file that was deleted stands in no slot any more, so no search can show it.
pub proof fn law_deleted_is_not_found(m: VolumeModel, u: UpdateModel, s: int)
    requires
        m.wf(),
        u.frn != 0,
        u.name.len() > 0,
        removes(u.reason),
        !inserts(u.reason),
        0 <= s < apply_update(m, u).entries.len(),
    ensures
        apply_update(m, u).frns[s] != u.frn,
{
    let after = apply_update(m, u);
    laws::lemma_remove_wf(m, u.frn);
    if after.frns[s] == u.frn {
        assert(after.frn_map.contains_key(u.frn));
        if m.frn_map.contains_key(u.frn) {
            laws::lemma_removed_key(m, u.frn);
        }
    }
}

/// A file that was created is hit by every query that stands in its name.
pub proof fn law_created_is_found(
    m: VolumeModel,
    u: UpdateModel,
    q: Seq<u16>,
    opts: SearchOptions,
    i: int,
)
    requires
        m.wf(),
        m.addressable(),
        m.entries.len() < u32::MAX,
        !m.frn_map.contains_key(u.frn),
        u.frn != 0,
        0 < u.name.len() <= u16::MAX,
        py::name_spelling(u.name) matches Some(p) ==> p.len() <= u16::MAX,
        inserts(u.reason),
        q.len() > 0,
        matcher::occurs_at(u.name, q, i),
    ensures
        ({
            let after = apply_update(m, u);
            let slot = after.frn_map[u.frn] as int;
            matcher::ranked_hit(after, after.entries[slot], q, opts) is Some
        }),
{
    law_created_is_indexed(m, u);
    let after = apply_update(m, u);
    let slot = after.frn_map[u.frn] as int;
    let py = py::name_spelling(u.name);
    laws::law_ntfs_entry_flags(m, u.frn, u.parent, u.name, u.is_dir, py);
    assert(after == m.upsert(u.frn, u.parent, u.name, u.is_dir, py));
    assert(after.live()[u.frn] == after.node(slot));
    assert(matcher::visible_name(after, after.entries[slot]) == u.name);
    search_laws::law_name_hit_iff_part(u.name, q);
}

} // verus!
