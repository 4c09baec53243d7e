//! What the records of file tables and of change journals do to an index, told by their bits and
//! bytes.

use vstd::prelude::*;

use crate::bytes;
use crate::laws;
use crate::mft;
use crate::model::VolumeModel;
use crate::py;
use crate::usn;
use crate::usn::UpdateModel;

verus! {

proof fn lemma_reason_bits(r: u32)
    ensures
        usn::removes(r) <==> r & 0x200 != 0 || r & 0x1000 != 0,
        usn::inserts(r) <==> r & 0x100 != 0 || r & 0x2000 != 0,
{
    assert(r & (0x200u32 | 0x1000u32) != 0 <==> r & 0x200 != 0 || r & 0x1000 != 0) by (bit_vector);
    assert(r & (0x100u32 | 0x2000u32) != 0 <==> r & 0x100 != 0 || r & 0x2000 != 0) by (bit_vector);
}

proof fn lemma_one_record(m: VolumeModel, u: UpdateModel)
    ensures
        usn::applied(m, seq![u]) == usn::apply_update(m, u),
        usn::change_count(m, seq![u]) == usn::changes(m, u),
{
    assert(seq![u].drop_last() =~= seq![]);
    assert(seq![u].last() == u);
    assert(usn::applied(m, seq![u].drop_last()) == m);
    assert(usn::change_count(m, seq![u].drop_last()) == 0);
}

/// A record with a number and a name that has bit 9 (deleted) or bit 12 (old name) set, and neither
/// bit 8 (created) nor bit 13 (new name), whatever else is set: the file is not indexed any more, all
/// other files are as before, and one change is counted if the file was there.
pub proof fn law_deletion_by_its_bits(m: VolumeModel, u: UpdateModel)
    requires
        m.wf(),
        m.addressable(),
        u.frn != 0,
        u.name.len() > 0,
        u.reason & 0x200 != 0 || u.reason & 0x1000 != 0,
        u.reason & 0x100 == 0,
        u.reason & 0x2000 == 0,
    ensures
        !usn::applied(m, seq![u]).live().contains_key(u.frn),
        forall|f: u64| #![trigger usn::applied(m, seq![u]).live().contains_key(f)]
            f != u.frn ==> (usn::applied(m, seq![u]).live().contains_key(f) <==> m.live().contains_key(
                f,
            )),
        forall|f: u64| #![trigger usn::applied(m, seq![u]).live()[f]]
            f != u.frn && m.live().contains_key(f) ==> usn::applied(m, seq![u]).live()[f]
                == m.live()[f],
        usn::change_count(m, seq![u]) == if m.live().contains_key(u.frn) {
            1nat
        } else {
            0
        },
{
    lemma_reason_bits(u.reason);
    lemma_one_record(m, u);
    laws::law_remove_live(m, u.frn);
}

/// A record with a number and a name that has bit 8 (created) or bit 13 (new name) set, whatever else
/// is set: the file is indexed under the name and the parent of the record, as a directory exactly
/// where the record says so, and all other files are as before. One change is counted, and one more
/// if the record also takes the file out and it was there. Only a short name, one with `~`, does not
/// come in the place of a long one.
pub proof fn law_creation_by_its_bits(m: VolumeModel, u: UpdateModel)
    requires
        m.wf(),
        m.addressable(),
        m.entries.len() < u32::MAX,
        u.frn != 0,
        0 < u.name.len() <= u16::MAX,
        py::name_spelling(u.name) matches Some(p) ==> p.len() <= u16::MAX,
        u.reason & 0x100 != 0 || u.reason & 0x2000 != 0,
        ({
            ||| u.reason & 0x200 != 0
            ||| u.reason & 0x1000 != 0
            ||| !m.live().contains_key(u.frn)
            ||| !u.name.contains(0x7E)
            ||| m.live()[u.frn].name.contains(0x7E)
        }),
    ensures
        ({
            let after = usn::applied(m, seq![u]).live();
            &&& after.contains_key(u.frn)
            &&& after[u.frn].name == u.name
            &&& after[u.frn].parent == u.parent
            &&& (after[u.frn].flags & 1 != 0) == u.is_dir
            &&& (after[u.frn].flags & 4 != 0) == (u.name[0] == 0x24)
            &&& after[u.frn].flags & 2 == 0
            &&& after.remove(u.frn) == m.live().remove(u.frn)
        }),
        usn::change_count(m, seq![u]) == if m.live().contains_key(u.frn) && (u.reason & 0x200 != 0
            || u.reason & 0x1000 != 0) {
            2nat
        } else {
            1
        },
{
    lemma_reason_bits(u.reason);
    lemma_one_record(m, u);
    let py = py::name_spelling(u.name);
    let without = if usn::removes(u.reason) {
        m.remove(u.frn)
    } else {
        m
    };
    laws::law_remove_live(m, u.frn);
    laws::lemma_remove_wf(m, u.frn);
    if m.frn_map.contains_key(u.frn) {
        laws::lemma_remove_sizes(m, u.frn);
        laws::lemma_removed_key(m, u.frn);
    }
    if without.frn_map.contains_key(u.frn) {
        assert(m.live()[u.frn] == m.node(m.frn_map[u.frn] as int));
    }
    laws::law_upsert_live(without, u.frn, u.parent, u.name, u.is_dir, py);
    laws::law_stored_name_decides_flags(without, u.frn, u.parent, u.name, u.is_dir, py);
    laws::law_ntfs_entry_flags(without, u.frn, u.parent, u.name, u.is_dir, py);
    let after = usn::applied(m, seq![u]);
    let slot = after.frn_map[u.frn] as int;
    assert(after.live()[u.frn] == after.node(slot));
    assert(after.live().remove(u.frn) =~= m.live().remove(u.frn));
}

/// A record that puts a short name, one with `~`, in the place of a long one leaves the index as it
/// is; it is counted all the same.
pub proof fn law_short_name_does_not_replace(m: VolumeModel, u: UpdateModel)
    requires
        m.wf(),
        u.frn != 0,
        u.name.contains(0x7E),
        u.reason & 0x100 != 0 || u.reason & 0x2000 != 0,
        u.reason & 0x200 == 0,
        u.reason & 0x1000 == 0,
        m.live().contains_key(u.frn),
        !m.live()[u.frn].name.contains(0x7E),
    ensures
        usn::applied(m, seq![u]) == m,
        usn::change_count(m, seq![u]) == 1,
{
    lemma_reason_bits(u.reason);
    lemma_one_record(m, u);
    assert(m.live()[u.frn] == m.node(m.frn_map[u.frn] as int));
}

/// A record with none of the bits 8, 9, 12 and 13 set, one without a number and one without a name
/// change nothing and are not counted.
pub proof fn law_other_records_by_their_bits(m: VolumeModel, u: UpdateModel)
    requires
        ({
            ||| u.frn == 0
            ||| u.name.len() == 0
            ||| u.reason & 0x100 == 0 && u.reason & 0x200 == 0 && u.reason & 0x1000 == 0 && u.reason
                & 0x2000 == 0
        }),
    ensures
        usn::applied(m, seq![u]) == m,
        usn::change_count(m, seq![u]) == 0,
{
    lemma_reason_bits(u.reason);
    lemma_one_record(m, u);
}

/// A batch does what its records do one after the other: the last one is applied to what the others
/// have led to, and the changes add up.
pub proof fn law_records_one_by_one(m: VolumeModel, records: Seq<UpdateModel>, u: UpdateModel)
    ensures
        usn::applied(m, seq![]) == m,
        usn::change_count(m, seq![]) == 0,
        usn::applied(m, records.push(u)) == usn::applied(usn::applied(m, records), seq![u]),
        usn::change_count(m, records.push(u)) == usn::change_count(m, records)
            + usn::change_count(usn::applied(m, records), seq![u]),
{
    assert(records.push(u).drop_last() =~= records);
    lemma_one_record(usn::applied(m, records), u);
}

/// Numbers stand in a buffer with their lowest byte first.
pub proof fn law_numbers_are_little_endian(b: Seq<u8>, at: int)
    requires
        0 <= at,
    ensures
        at + 1 <= b.len() ==> bytes::number_at(b, at, 1) == b[at],
        at + 2 <= b.len() ==> bytes::number_at(b, at, 2) == b[at] + 0x100 * b[at + 1],
        at + 4 <= b.len() ==> bytes::number_at(b, at, 4) == b[at] + 0x100 * b[at + 1] + 0x1_0000 * b[at
            + 2] + 0x100_0000 * b[at + 3],
        at + 8 <= b.len() ==> bytes::number_at(b, at, 8) == bytes::number_at(b, at, 4)
            + 0x1_0000_0000 * bytes::number_at(b, at + 4, 4),
{
    if at + 1 <= b.len() {
        lemma_first_byte(b, at, 1);
    }
    if at + 2 <= b.len() {
        lemma_first_byte(b, at, 2);
        lemma_first_byte(b, at + 1, 1);
    }
    if at + 4 <= b.len() {
        lemma_four_bytes(b, at);
    }
    if at + 8 <= b.len() {
        lemma_four_bytes(b, at);
        lemma_four_bytes(b, at + 4);
        lemma_first_byte(b, at, 8);
        lemma_first_byte(b, at + 1, 7);
        lemma_first_byte(b, at + 2, 6);
        lemma_first_byte(b, at + 3, 5);
    }
}

proof fn lemma_first_byte(b: Seq<u8>, at: int, n: int)
    requires
        0 <= at,
        0 < n,
        at + n <= b.len(),
    ensures
        bytes::number_at(b, at, n) == b[at] + 0x100 * bytes::number_at(b, at + 1, n - 1),
        bytes::number_at(b, at + n, 0) == 0,
{
    let part = b.subrange(at, at + n);
    assert(part.drop_first() =~= b.subrange(at + 1, at + n));
    assert(part[0] == b[at]);
}

proof fn lemma_four_bytes(b: Seq<u8>, at: int)
    requires
        0 <= at,
        at + 4 <= b.len(),
    ensures
        bytes::number_at(b, at, 4) == b[at] + 0x100 * b[at + 1] + 0x1_0000 * b[at + 2] + 0x100_0000 * b[at
            + 3],
{
    lemma_first_byte(b, at, 4);
    lemma_first_byte(b, at + 1, 3);
    lemma_first_byte(b, at + 2, 2);
    lemma_first_byte(b, at + 3, 1);
}

/// A number stands at a place of a buffer.
pub open spec fn number_stands(b: Seq<u8>, at: int, n: int, x: int) -> bool {
    0 <= at && at + n <= b.len() && 0 <= x && b.subrange(at, at + n) == bytes::to_le(x as nat, n as nat)
}

/// UTF-16 units stand at a place of a buffer.
pub open spec fn units_stand(b: Seq<u8>, at: int, units: Seq<u16>) -> bool {
    &&& 0 <= at
    &&& at + 2 * units.len() <= b.len()
    &&& forall|i: int| #![trigger units[i]]
        0 <= i < units.len() ==> number_stands(b, at + 2 * i, 2, units[i] as int)
}

proof fn lemma_number_read(b: Seq<u8>, at: int, n: int, x: int)
    requires
        number_stands(b, at, n, x),
        0 <= n,
        x < bytes::power(n as nat),
    ensures
        bytes::number_at(b, at, n) == x,
{
    bytes::law_le_round_trip(x as nat, n as nat);
}

pub proof fn lemma_units_read(b: Seq<u8>, at: int, units: Seq<u16>)
    requires
        units_stand(b, at, units),
    ensures
        bytes::units_at(b, at, units.len()) == units,
{
    bytes::lemma_power();
    let read = bytes::units_at(b, at, units.len());
    assert forall|i: int| 0 <= i < units.len() implies read[i] == units[i] by {
        let u = units[i];
        assert(number_stands(b, at + 2 * i, 2, u as int));
        lemma_number_read(b, at + i * 2, 2, u as int);
    }
    assert(read =~= units);
}

/// A record as Windows writes it, as far as it counts.
pub struct DiskRecord {
    pub len: u32,
    pub frn: u64,
    pub parent: u64,
    pub usn: i64,
    pub reason: u32,
    pub attributes: u32,
    /// Where the name begins, from the start of the record.
    pub name_at: u16,
    pub name: Seq<u16>,
}

/// A record in the second version of its layout stands at a place of a buffer.
pub open spec fn record_stands(b: Seq<u8>, off: int, r: DiskRecord) -> bool {
    &&& number_stands(b, off, 4, r.len as int)
    &&& number_stands(b, off + 8, 8, r.frn as int)
    &&& number_stands(b, off + 16, 8, r.parent as int)
    &&& number_stands(b, off + 52, 4, r.attributes as int)
    &&& number_stands(b, off + 56, 2, 2 * r.name.len() as int)
    &&& number_stands(b, off + 58, 2, r.name_at as int)
    &&& units_stand(b, off + r.name_at, r.name)
    &&& r.name.len() <= 0x7FFF
}

proof fn lemma_attribute_bit(b: Seq<u8>, at: int, attributes: u32)
    requires
        number_stands(b, at, 4, attributes as int),
    ensures
        bytes::number_at(b, at, 4) == attributes,
        bytes::number_at(b, at, 2) == attributes % 0x1_0000,
        b[at] == attributes % 0x100,
        (bytes::number_at(b, at, 2) as u16 & 0x10 != 0) == (attributes & 0x10 != 0),
        (b[at] & 0x10 != 0) == (attributes & 0x10 != 0),
{
    bytes::lemma_power();
    lemma_number_read(b, at, 4, attributes as int);
    law_numbers_are_little_endian(b, at);
    let low = (attributes % 0x1_0000) as u16;
    let least = (attributes % 0x100) as u8;
    assert(((attributes % 0x1_0000) as u16 & 0x10 != 0) == (attributes & 0x10 != 0)) by (bit_vector);
    assert(((attributes % 0x100) as u8 & 0x10 != 0) == (attributes & 0x10 != 0)) by (bit_vector);
}

/// A record of the file table that stands in a batch is read as it was written: number, parent and
/// name are those that stand there, and the file is a directory exactly where bit 4 of the byte at
/// offset 52 is set. Then follows what stands behind it.
pub proof fn law_table_record_is_read_back(b: Seq<u8>, off: int, r: DiskRecord)
    requires
        record_stands(b, off, r),
        r.len >= 60,
        off + r.len <= b.len(),
        r.name.len() > 0,
        r.name_at >= 60,
    ensures
        mft::records_from(b, off) == seq![
            mft::FileModel {
                frn: r.frn,
                parent: r.parent,
                name: r.name,
                is_dir: r.attributes & 0x10 != 0,
            },
        ] + mft::records_from(b, off + r.len),
        (r.attributes & 0x10 != 0) == (b[off + 52] & 0x10 != 0),
{
    bytes::lemma_power();
    lemma_number_read(b, off, 4, r.len as int);
    lemma_number_read(b, off + 8, 8, r.frn as int);
    lemma_number_read(b, off + 16, 8, r.parent as int);
    lemma_number_read(b, off + 56, 2, 2 * r.name.len() as int);
    lemma_number_read(b, off + 58, 2, r.name_at as int);
    lemma_attribute_bit(b, off + 52, r.attributes);
    lemma_units_read(b, off + r.name_at, r.name);
    assert((2 * r.name.len()) as nat / 2 == r.name.len());
    assert(mft::record_at(b, off) =~= mft::FileModel {
        frn: r.frn,
        parent: r.parent,
        name: r.name,
        is_dir: r.attributes & 0x10 != 0,
    });
}

/// Records stand in a batch one behind the other, up to where none has room any more.
pub open spec fn table_stands(b: Seq<u8>, off: int, records: Seq<DiskRecord>) -> bool
    decreases records.len(),
{
    if records.len() == 0 {
        0 <= off && b.len() < off + 60
    } else {
        let r = records[0];
        &&& record_stands(b, off, r)
        &&& r.len >= 60
        &&& off + r.len <= b.len()
        &&& r.name.len() > 0
        &&& r.name_at >= 60
        &&& table_stands(b, off + r.len, records.drop_first())
    }
}

/// All records of a batch are read, in the order in which they stand there, each as it was written.
pub proof fn law_table_is_read_back(b: Seq<u8>, off: int, records: Seq<DiskRecord>)
    requires
        table_stands(b, off, records),
    ensures
        mft::records_from(b, off).len() == records.len(),
        forall|i: int| #![trigger records[i]]
            0 <= i < records.len() ==> mft::records_from(b, off)[i] == (mft::FileModel {
                frn: records[i].frn,
                parent: records[i].parent,
                name: records[i].name,
                is_dir: records[i].attributes & 0x10 != 0,
            }),
    decreases records.len(),
{
    if records.len() > 0 {
        let rest = records.drop_first();
        law_table_record_is_read_back(b, off, records[0]);
        law_table_is_read_back(b, off + records[0].len, rest);
        let all = mft::records_from(b, off);
        assert forall|i: int| #![trigger records[i]] 0 <= i < records.len() implies all[i]
            == (mft::FileModel {
            frn: records[i].frn,
            parent: records[i].parent,
            name: records[i].name,
            is_dir: records[i].attributes & 0x10 != 0,
        }) by {
            if i > 0 {
                assert(records[i] == rest[i - 1]);
                assert(all[i] == mft::records_from(b, off + records[0].len)[i - 1]);
            }
        }
    }
}

/// A record of the file table without a name of its own, one whose name begins in its fixed fields,
/// and one whose name goes beyond the batch are passed over.
pub proof fn law_nameless_table_record_is_passed_over(b: Seq<u8>, off: int, r: DiskRecord, n: u16)
    requires
        number_stands(b, off, 4, r.len as int),
        number_stands(b, off + 56, 2, n as int),
        number_stands(b, off + 58, 2, r.name_at as int),
        r.len >= 60,
        off + r.len <= b.len(),
        n < 2 || r.name_at < 60 || off + r.name_at + n > b.len(),
    ensures
        mft::records_from(b, off) == mft::records_from(b, off + r.len),
{
    bytes::lemma_power();
    lemma_number_read(b, off, 4, r.len as int);
    lemma_number_read(b, off + 56, 2, n as int);
    lemma_number_read(b, off + 58, 2, r.name_at as int);
    assert(seq![] + mft::records_from(b, off + r.len) =~= mft::records_from(b, off + r.len));
}

/// Where fewer than 60 bytes are left, or a record claims fewer than 60 bytes or more than there are,
/// the reading of a batch ends.
pub proof fn law_broken_table_record_ends_the_batch(b: Seq<u8>, off: int, len: u32)
    requires
        0 <= off,
        b.len() < off + 60 || number_stands(b, off, 4, len as int) && (len < 60 || off + len > b.len()),
    ensures
        mft::records_from(b, off).len() == 0,
{
    bytes::lemma_power();
    if b.len() >= off + 60 {
        lemma_number_read(b, off, 4, len as int);
    }
}

/// A file of the table comes into the index under its number, with its name and its parent, as a
/// directory exactly where it is one, and all other files are as before. Only the root directory,
/// number 5, and a file without a name do not, and a short name, one with `~`, does not come in the
/// place of a long one.
pub proof fn law_table_file_is_indexed(m: VolumeModel, files: Seq<mft::FileModel>, f: mft::FileModel)
    requires
        mft::absorbed(m, files).wf(),
        mft::absorbed(m, files).addressable(),
        mft::absorbed(m, files).entries.len() < u32::MAX,
        f.frn != 0,
        f.name.len() <= u16::MAX,
        py::name_spelling(f.name) matches Some(p) ==> p.len() <= u16::MAX,
    ensures
        ({
            let before = mft::absorbed(m, files).live();
            let after = mft::absorbed(m, files.push(f)).live();
            if f.frn == 5 || f.name.len() == 0 || before.contains_key(f.frn) && f.name.contains(0x7E)
                && !before[f.frn].name.contains(0x7E) {
                after == before
            } else {
                &&& after.contains_key(f.frn)
                &&& after[f.frn].name == f.name
                &&& after[f.frn].parent == f.parent
                &&& (after[f.frn].flags & 1 != 0) == f.is_dir
                &&& (after[f.frn].flags & 4 != 0) == (f.name[0] == 0x24)
                &&& after[f.frn].flags & 2 == 0
                &&& after.remove(f.frn) == before.remove(f.frn)
            }
        }),
        mft::absorbed(m, seq![]) == m,
{
    let had = mft::absorbed(m, files);
    let py = py::name_spelling(f.name);
    assert(files.push(f).drop_last() =~= files);
    if had.frn_map.contains_key(f.frn) {
        assert(had.live()[f.frn] == had.node(had.frn_map[f.frn] as int));
    }
    if f.frn != 5 && f.name.len() > 0 && !had.shadowed(f.frn, f.name) {
        laws::law_upsert_live(had, f.frn, f.parent, f.name, f.is_dir, py);
        laws::law_ntfs_entry_flags(had, f.frn, f.parent, f.name, f.is_dir, py);
        let after = mft::absorbed(m, files.push(f));
        assert(after.live()[f.frn] == after.node(after.frn_map[f.frn] as int));
        assert(after.live().remove(f.frn) =~= had.live().remove(f.frn));
    }
}

/// A record of the change journal stands at a place of a buffer, in the second version of its layout
/// or, where file numbers are wide, in the third.
pub open spec fn change_stands(b: Seq<u8>, off: int, version: u16, r: DiskRecord) -> bool {
    &&& number_stands(b, off, 4, r.len as int)
    &&& number_stands(b, off + 4, 2, version as int)
    &&& number_stands(b, off + 8, 8, r.frn as int)
    &&& r.name.len() <= 0x7FFF
    &&& units_stand(b, off + r.name_at, r.name)
    &&& if version == 3 {
        &&& number_stands(b, off + 24, 8, r.parent as int)
        &&& number_stands(b, off + 40, 8, bytes::unsigned(r.usn) as int)
        &&& number_stands(b, off + 56, 4, r.reason as int)
        &&& number_stands(b, off + 68, 4, r.attributes as int)
        &&& number_stands(b, off + 72, 2, 2 * r.name.len() as int)
        &&& number_stands(b, off + 74, 2, r.name_at as int)
    } else {
        &&& number_stands(b, off + 16, 8, r.parent as int)
        &&& number_stands(b, off + 24, 8, bytes::unsigned(r.usn) as int)
        &&& number_stands(b, off + 40, 4, r.reason as int)
        &&& number_stands(b, off + 52, 4, r.attributes as int)
        &&& number_stands(b, off + 56, 2, 2 * r.name.len() as int)
        &&& number_stands(b, off + 58, 2, r.name_at as int)
    }
}

/// The first place that is a multiple of eight bytes away from another and not before a third.
pub open spec fn is_next_eighth(from: int, end: int, next: int) -> bool {
    (next - from) % 8 == 0 && end <= next < end + 8
}

/// A record of the change journal that stands in a buffer is read as it was written: number, parent,
/// position, reason and name are those that stand there, and the file is a directory exactly where
/// bit 4 of its attributes is set. Then follows what stands behind it, at the next multiple of eight
/// bytes.
pub proof fn law_change_is_read_back(
    b: Seq<u8>,
    n: int,
    off: int,
    version: u16,
    r: DiskRecord,
    next: int,
)
    requires
        change_stands(b, off, version, r),
        off + r.len <= n <= b.len(),
        r.len >= 8,
        r.name.len() > 0,
        r.name_at + 2 * r.name.len() <= r.len,
        is_next_eighth(off, off + r.len, next),
    ensures
        usn::records_from(b, n, off) == seq![
            UpdateModel {
                frn: r.frn,
                parent: r.parent,
                usn: r.usn,
                reason: r.reason,
                is_dir: r.attributes & 0x10 != 0,
                name: r.name,
            },
        ] + usn::records_from(b, n, next),
{
    bytes::lemma_power();
    lemma_number_read(b, off, 4, r.len as int);
    lemma_number_read(b, off + 4, 2, version as int);
    lemma_number_read(b, off + 8, 8, r.frn as int);
    bytes::law_signed_round_trip(r.usn);
    if version == 3 {
        lemma_number_read(b, off + 24, 8, r.parent as int);
        lemma_number_read(b, off + 40, 8, bytes::unsigned(r.usn) as int);
        lemma_number_read(b, off + 56, 4, r.reason as int);
        lemma_attribute_bit(b, off + 68, r.attributes);
        lemma_number_read(b, off + 72, 2, 2 * r.name.len() as int);
        lemma_number_read(b, off + 74, 2, r.name_at as int);
    } else {
        lemma_number_read(b, off + 16, 8, r.parent as int);
        lemma_number_read(b, off + 24, 8, bytes::unsigned(r.usn) as int);
        lemma_number_read(b, off + 40, 4, r.reason as int);
        lemma_attribute_bit(b, off + 52, r.attributes);
        lemma_number_read(b, off + 56, 2, 2 * r.name.len() as int);
        lemma_number_read(b, off + 58, 2, r.name_at as int);
    }
    lemma_units_read(b, off + r.name_at, r.name);
    assert((2 * r.name.len()) as nat / 2 == r.name.len());
    assert(usn::next_record(b, off) == next);
    assert(usn::record_at(b, off) =~= UpdateModel {
        frn: r.frn,
        parent: r.parent,
        usn: r.usn,
        reason: r.reason,
        is_dir: r.attributes & 0x10 != 0,
        name: r.name,
    });
}

/// The number for a signed position is its two's complement.
pub proof fn law_positions_are_in_twos_complement(x: i64)
    ensures
        (bytes::unsigned(x) - x) % 0x1_0000_0000_0000_0000 == 0,
        0 <= bytes::unsigned(x) < 0x1_0000_0000_0000_0000,
        bytes::signed(bytes::unsigned(x)) == x,
{
    bytes::law_signed_round_trip(x);
}

/// A record of the change journal without a name, or whose name goes beyond the record, is passed
/// over.
pub proof fn law_nameless_change_is_passed_over(
    b: Seq<u8>,
    n: int,
    off: int,
    version: u16,
    r: DiskRecord,
    name_len: u16,
    next: int,
)
    requires
        number_stands(b, off, 4, r.len as int),
        number_stands(b, off + 4, 2, version as int),
        number_stands(
            b,
            if version == 3 {
                off + 72
            } else {
                off + 56
            },
            2,
            name_len as int,
        ),
        number_stands(
            b,
            if version == 3 {
                off + 74
            } else {
                off + 58
            },
            2,
            r.name_at as int,
        ),
        off + 8 <= n,
        0 < r.len,
        off + r.len <= n <= b.len(),
        name_len < 2 || r.name_at + name_len > r.len,
        is_next_eighth(off, off + r.len, next),
    ensures
        usn::records_from(b, n, off) == usn::records_from(b, n, next),
{
    bytes::lemma_power();
    lemma_number_read(b, off, 4, r.len as int);
    lemma_number_read(b, off + 4, 2, version as int);
    if version == 3 {
        lemma_number_read(b, off + 72, 2, name_len as int);
        lemma_number_read(b, off + 74, 2, r.name_at as int);
    } else {
        lemma_number_read(b, off + 56, 2, name_len as int);
        lemma_number_read(b, off + 58, 2, r.name_at as int);
    }
    assert(usn::next_record(b, off) == next);
    assert(seq![] + usn::records_from(b, n, next) =~= usn::records_from(b, n, next));
}

/// Where fewer than eight bytes are left, or a record claims no bytes or more than were read, the
/// reading of a buffer ends.
pub proof fn law_broken_change_ends_the_buffer(b: Seq<u8>, n: int, off: int, len: u32)
    requires
        0 <= off,
        n <= b.len(),
        n < off + 8 || number_stands(b, off, 4, len as int) && (len == 0 || off + len > n),
    ensures
        usn::records_from(b, n, off).len() == 0,
{
    bytes::lemma_power();
    if n >= off + 8 {
        lemma_number_read(b, off, 4, len as int);
    }
}

/// The journal is lost with the codes 1178 and 1179 alone, and late with 1460 alone; a table was read to
/// its end where the low half of the code is 38.
pub proof fn law_error_codes(code: u32, high: u16, low: u16)
    ensures
        usn::means_lost(code) <==> code == 1178 || code == 1179,
        usn::means_timeout(code) <==> code == 1460,
        mft::means_end((0x1_0000 * high + low) as u32) <==> low == 38,
{
}

/// A batch of fewer than eight bytes holds nothing. Any other begins with the number at which the next
/// one starts, and its records stand behind that.
pub proof fn law_batch_is_read_back(b: Seq<u8>, next: u64, records: Seq<DiskRecord>)
    ensures
        b.len() < 8 ==> mft::batch_of(b) is None,
        number_stands(b, 0, 8, next as int) && table_stands(b, 8, records) ==> (mft::batch_of(b)
            matches Some((n, files)) && n == next && files.len() == records.len() && forall|i: int|
            #![trigger records[i]]
            0 <= i < records.len() ==> files[i] == (mft::FileModel {
                frn: records[i].frn,
                parent: records[i].parent,
                name: records[i].name,
                is_dir: records[i].attributes & 0x10 != 0,
            })),
{
    bytes::lemma_power();
    if number_stands(b, 0, 8, next as int) && table_stands(b, 8, records) {
        lemma_number_read(b, 0, 8, next as int);
        law_table_is_read_back(b, 8, records);
    }
}

/// Records of the change journal stand in a buffer one behind the other, each at a multiple of eight
/// bytes from the last, up to where none has room any more.
pub open spec fn changes_stand(
    b: Seq<u8>,
    n: int,
    off: int,
    versions: Seq<u16>,
    records: Seq<DiskRecord>,
) -> bool
    decreases records.len(),
{
    if records.len() == 0 {
        0 <= off && n < off + 8
    } else {
        let r = records[0];
        &&& versions.len() == records.len()
        &&& change_stands(b, off, versions[0], r)
        &&& off + r.len <= n <= b.len()
        &&& r.len >= 8
        &&& r.name.len() > 0
        &&& r.name_at + 2 * r.name.len() <= r.len
        &&& changes_stand(
            b,
            n,
            off + (r.len + 7) / 8 * 8,
            versions.drop_first(),
            records.drop_first(),
        )
    }
}

proof fn lemma_changes_read(
    b: Seq<u8>,
    n: int,
    off: int,
    versions: Seq<u16>,
    records: Seq<DiskRecord>,
)
    requires
        changes_stand(b, n, off, versions, records),
    ensures
        usn::records_from(b, n, off).len() == records.len(),
        forall|i: int| #![trigger records[i]]
            0 <= i < records.len() ==> usn::records_from(b, n, off)[i] == (UpdateModel {
                frn: records[i].frn,
                parent: records[i].parent,
                usn: records[i].usn,
                reason: records[i].reason,
                is_dir: records[i].attributes & 0x10 != 0,
                name: records[i].name,
            }),
    decreases records.len(),
{
    if records.len() > 0 {
        let r = records[0];
        let next = off + (r.len + 7) / 8 * 8;
        let rest = records.drop_first();
        law_change_is_read_back(b, n, off, versions[0], r, next);
        lemma_changes_read(b, n, next, versions.drop_first(), rest);
        let all = usn::records_from(b, n, off);
        assert forall|i: int| #![trigger records[i]] 0 <= i < records.len() implies all[i]
            == (UpdateModel {
            frn: records[i].frn,
            parent: records[i].parent,
            usn: records[i].usn,
            reason: records[i].reason,
            is_dir: records[i].attributes & 0x10 != 0,
            name: records[i].name,
        }) by {
            if i > 0 {
                assert(records[i] == rest[i - 1]);
                assert(all[i] == usn::records_from(b, n, next)[i - 1]);
            }
        }
    }
}

/// A journal buffer with fewer than 16 bytes holds no records and leaves the position as it was. Any
/// other begins with the position to go on from, and its records stand behind that.
pub proof fn law_journal_is_read_back(
    b: Seq<u8>,
    n: int,
    start: i64,
    next: i64,
    versions: Seq<u16>,
    records: Seq<DiskRecord>,
)
    ensures
        n < 16 ==> usn::journal_of(b, n, start).0.len() == 0 && usn::journal_of(b, n, start).1 == start,
        n >= 16 && number_stands(b, 0, 8, bytes::unsigned(next) as int) && changes_stand(
            b,
            n,
            8,
            versions,
            records,
        ) ==> {
            let (changes, position) = usn::journal_of(b, n, start);
            &&& position == next
            &&& changes.len() == records.len()
            &&& forall|i: int| #![trigger records[i]]
                0 <= i < records.len() ==> changes[i] == (UpdateModel {
                    frn: records[i].frn,
                    parent: records[i].parent,
                    usn: records[i].usn,
                    reason: records[i].reason,
                    is_dir: records[i].attributes & 0x10 != 0,
                    name: records[i].name,
                })
        },
{
    bytes::lemma_power();
    bytes::law_signed_round_trip(next);
    if n >= 16 && number_stands(b, 0, 8, bytes::unsigned(next) as int) && changes_stand(
        b,
        n,
        8,
        versions,
        records,
    ) {
        lemma_number_read(b, 0, 8, bytes::unsigned(next) as int);
        lemma_changes_read(b, n, 8, versions, records);
    }
}

/// A journal buffer can be read where the fixed fields of every record lie in it: 76 bytes in the third
/// version of the layout, and 60 in any other.
pub proof fn law_readable_buffers(b: Seq<u8>, n: int, off: int, version: u16, len: u32, next: int)
    requires
        0 <= off,
        n <= b.len(),
        off + 8 <= n,
        number_stands(b, off, 4, len as int),
        number_stands(b, off + 4, 2, version as int),
        is_next_eighth(off, off + len, next),
    ensures
        0 < len && off + len <= n ==> (usn::readable_from(b, n, off) <==> (if version == 3 {
            off + 76 <= b.len()
        } else {
            off + 60 <= b.len()
        }) && usn::readable_from(b, n, next)),
        len == 0 || off + len > n ==> usn::readable_from(b, n, off),
{
    bytes::lemma_power();
    lemma_number_read(b, off, 4, len as int);
    lemma_number_read(b, off + 4, 2, version as int);
    assert(usn::next_record(b, off) == next);
}

} // verus!
