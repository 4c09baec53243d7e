//! What the bytes of a snapshot hold, and where.

use vstd::prelude::*;

use crate::bytes;
use crate::laws;
use crate::model;
use crate::model::VolumeModel;
use crate::record_laws;
use crate::record_laws::{number_stands, units_stand};
use crate::snapshot;
use crate::snapshot::SnapshotError;
use crate::types::Entry;

verus! {

/// The checksum is the FNV-1a hash in 64 bits: it begins with its offset, and with each byte the two
/// are combined by exclusive or and multiplied by its prime.
pub proof fn law_checksum_grows_by_bytes(data: Seq<u8>, b: u8)
    ensures
        snapshot::checksum(seq![]) == 0xcbf29ce484222325u64,
        snapshot::checksum(data.push(b)) == ((snapshot::checksum(data) ^ (b as u64))
            * 0x100000001b3int) % 0x1_0000_0000_0000_0000,
{
    assert(data.push(b).drop_last() =~= data);
}

/// A snapshot begins with the letters `QIDX`, its version, 2, and the number of its volumes, and ends
/// with the checksum of all that stands before it.
pub proof fn law_snapshot_frame(volumes: Seq<VolumeModel>)
    requires
        volumes.len() <= u16::MAX,
        forall|v: int| #![trigger volumes[v]]
            0 <= v < volumes.len() ==> snapshot::storable(volumes[v]),
    ensures
        ({
            let body = snapshot::body_bytes(volumes);
            let b = snapshot::sealed(body);
            &&& b.len() == body.len() + 8
            &&& b.take(body.len() as int) == body
            &&& body.len() >= 8
            &&& b[0] == 0x51 && b[1] == 0x49 && b[2] == 0x44 && b[3] == 0x58
            &&& bytes::number_at(b, 4, 2) == 2
            &&& bytes::number_at(b, 6, 2) == volumes.len()
            &&& bytes::number_at(b, body.len() as int, 8) == snapshot::checksum(body)
        }),
{
    let body = snapshot::body_bytes(volumes);
    snapshot::lemma_body_held(volumes);
    snapshot::lemma_sealed(body);
    lemma_frame(body, snapshot::sealed(body));
}

proof fn lemma_frame(body: Seq<u8>, b: Seq<u8>)
    requires
        body.len() >= 8,
        b.len() == body.len() + 8,
        b.take(b.len() - 8) == body,
        bytes::number_at(body, 0, 4) == 0x5844_4951,
    ensures
        b[0] == 0x51 && b[1] == 0x49 && b[2] == 0x44 && b[3] == 0x58,
        bytes::number_at(b, 4, 2) == bytes::number_at(body, 4, 2),
        bytes::number_at(b, 6, 2) == bytes::number_at(body, 6, 2),
{
    assert(b.subrange(4, 6) =~= body.subrange(4, 6));
    assert(b.subrange(6, 8) =~= body.subrange(6, 8));
    record_laws::law_numbers_are_little_endian(body, 0);
    lemma_letters(body[0], body[1], body[2], body[3]);
    assert(b[0] == body[0] && b[1] == body[1] && b[2] == body[2] && b[3] == body[3]);
}

proof fn lemma_letters(a: u8, b: u8, c: u8, d: u8)
    requires
        a + 0x100 * b + 0x1_0000 * c + 0x100_0000 * d == 0x5844_4951,
    ensures
        a == 0x51,
        b == 0x49,
        c == 0x44,
        d == 0x58,
{
}

/// Bytes are refused for the first reason that holds: there are fewer than 16; their checksum is not
/// that of the rest; they do not begin with `QIDX` and version 2; a volume is not all there.
pub proof fn law_snapshot_refusals(b: Seq<u8>)
    ensures
        b.len() < 16 <==> snapshot::parsed(b) == Err::<Seq<VolumeModel>, SnapshotError>(
            SnapshotError::TooShort,
        ),
        b.len() >= 16 && snapshot::checksum(b.take(b.len() - 8)) != bytes::number_at(
            b,
            b.len() - 8,
            8,
        ) <==> snapshot::parsed(b) == Err::<Seq<VolumeModel>, SnapshotError>(
            SnapshotError::ChecksumMismatch,
        ),
        b.len() >= 16 && snapshot::checksum(b.take(b.len() - 8)) == bytes::number_at(
            b,
            b.len() - 8,
            8,
        ) && !(b[0] == 0x51 && b[1] == 0x49 && b[2] == 0x44 && b[3] == 0x58 && b[4] == 2 && b[5] == 0)
            <==> snapshot::parsed(b) == Err::<Seq<VolumeModel>, SnapshotError>(
            SnapshotError::IncompatibleVersion,
        ),
{
    if b.len() >= 16 {
        let body = b.take(b.len() - 8);
        record_laws::law_numbers_are_little_endian(body, 0);
        record_laws::law_numbers_are_little_endian(body, 4);
        assert(body[0] == b[0] && body[1] == b[1] && body[2] == b[2] && body[3] == b[3] && body[4]
            == b[4] && body[5] == b[5]);
    }
}

/// A snapshot that is taken holds its volumes one behind the other, from the eighth byte on.
pub proof fn law_snapshot_that_is_taken(b: Seq<u8>, n: u16)
    requires
        b.len() >= 16,
        snapshot::checksum(b.take(b.len() - 8)) == bytes::number_at(b, b.len() - 8, 8),
        b[0] == 0x51,
        b[1] == 0x49,
        b[2] == 0x44,
        b[3] == 0x58,
        b[4] == 2,
        b[5] == 0,
        number_stands(b, 6, 2, n as int),
    ensures
        snapshot::parsed(b) == match snapshot::volumes_at(b.take(b.len() - 8), 8, n as nat) {
            Some(volumes) => Ok::<Seq<VolumeModel>, SnapshotError>(volumes),
            None => Err(SnapshotError::Truncated),
        },
{
    let body = b.take(b.len() - 8);
    record_laws::law_numbers_are_little_endian(body, 0);
    record_laws::law_numbers_are_little_endian(body, 4);
    assert(body[0] == b[0] && body[1] == b[1] && body[2] == b[2] && body[3] == b[3] && body[4] == b[4]
        && body[5] == b[5]);
    assert(body.subrange(6, 8) =~= b.subrange(6, 8));
    bytes::lemma_power();
    bytes::law_le_round_trip(n as nat, 2);
}

/// An entry stands at a place, in 24 bytes of which the last two do not count.
pub open spec fn entry_stands(b: Seq<u8>, at: int, e: Entry) -> bool {
    &&& number_stands(b, at, 8, e.parent as int)
    &&& number_stands(b, at + 8, 4, e.name_off as int)
    &&& number_stands(b, at + 12, 4, e.py_off as int)
    &&& number_stands(b, at + 16, 2, e.name_len as int)
    &&& number_stands(b, at + 18, 2, e.py_len as int)
    &&& number_stands(b, at + 20, 2, e.flags as int)
    &&& at + 24 <= b.len()
}

/// What a volume is made of, as it is stored.
pub struct Stored {
    pub letter: u8,
    pub is_ntfs: bool,
    pub journal_id: u64,
    pub next_usn: i64,
    pub names: Seq<u16>,
    pub pys: Seq<u16>,
    pub entries: Seq<Entry>,
    pub frns: Seq<u64>,
}

/// How many bytes a volume takes.
pub open spec fn stored_len(v: Stored) -> int {
    34int + 2 * v.names.len() + 2 * v.pys.len() + 24 * v.entries.len() + 8 * v.frns.len()
}

/// A volume stands at a place: letter, kind, journal and position, the four counts, then names,
/// spellings, entries and numbers.
pub open spec fn volume_stands(b: Seq<u8>, p: int, v: Stored) -> bool {
    let names_at = p + 34;
    let pys_at = names_at + 2 * v.names.len();
    let entries_at = pys_at + 2 * v.pys.len();
    let frns_at = entries_at + 24 * v.entries.len();
    &&& 0 <= p
    &&& p + stored_len(v) <= b.len()
    &&& b[p] == v.letter
    &&& (b[p + 1] != 0) == v.is_ntfs
    &&& number_stands(b, p + 2, 8, v.journal_id as int)
    &&& number_stands(b, p + 10, 8, bytes::unsigned(v.next_usn) as int)
    &&& v.names.len() <= u32::MAX && number_stands(b, p + 18, 4, v.names.len() as int)
    &&& v.pys.len() <= u32::MAX && number_stands(b, p + 22, 4, v.pys.len() as int)
    &&& v.entries.len() <= u32::MAX && number_stands(b, p + 26, 4, v.entries.len() as int)
    &&& v.frns.len() <= u32::MAX && number_stands(b, p + 30, 4, v.frns.len() as int)
    &&& units_stand(b, names_at, v.names)
    &&& units_stand(b, pys_at, v.pys)
    &&& forall|i: int| #![trigger v.entries[i]]
        0 <= i < v.entries.len() ==> entry_stands(b, entries_at + 24 * i, v.entries[i])
    &&& forall|i: int| #![trigger v.frns[i]]
        0 <= i < v.frns.len() ==> number_stands(b, frns_at + 8 * i, 8, v.frns[i] as int)
}

/// A volume was read as it is stored. An entry with a spelling has the flag for Chinese characters,
/// bit 4, whether it was stored or not; each number that is not 0 leads to a slot that holds it.
pub open spec fn is_read(m: VolumeModel, v: Stored) -> bool {
    &&& m.letter as int == v.letter
    &&& m.is_ntfs == v.is_ntfs
    &&& m.journal_id == v.journal_id
    &&& m.next_usn == v.next_usn
    &&& m.names == v.names
    &&& m.pys == v.pys
    &&& m.frns == v.frns
    &&& m.entries.len() == v.entries.len()
    &&& forall|i: int| #![trigger m.entries[i]]
        0 <= i < m.entries.len() ==> {
            &&& m.entries[i].parent == v.entries[i].parent
            &&& m.entries[i].name_off == v.entries[i].name_off
            &&& m.entries[i].name_len == v.entries[i].name_len
            &&& m.entries[i].py_off == v.entries[i].py_off
            &&& m.entries[i].py_len == v.entries[i].py_len
            &&& v.entries[i].py_len == 0 ==> m.entries[i].flags == v.entries[i].flags
            &&& v.entries[i].py_len > 0 ==> m.entries[i].flags == v.entries[i].flags | 16
        }
    &&& forall|f: u64| #[trigger]
        m.frn_map.contains_key(f) ==> f != 0 && m.frn_map[f] < m.frns.len() && m.frns[m.frn_map[f] as int]
            == f
    &&& forall|s: int| #![trigger m.frns[s]]
        0 <= s < m.frns.len() && m.frns[s] != 0 ==> m.frn_map.contains_key(m.frns[s])
    &&& forall|f: u64| !#[trigger] m.start_menu.contains(f)
    &&& m.deleted == 0
}

/// A stored volume is read as it stands there, and what follows behind its last byte.
pub proof fn law_stored_volume_is_read(b: Seq<u8>, p: int, v: Stored, n: nat)
    requires
        volume_stands(b, p, v),
        n > 0,
    ensures
        is_read(snapshot::volume_at(b, p), v),
        snapshot::volumes_at(b, p, n) == match snapshot::volumes_at(
            b,
            p + stored_len(v),
            (n - 1) as nat,
        ) {
            Some(rest) => Some(seq![snapshot::volume_at(b, p)] + rest),
            None => None,
        },
        snapshot::volumes_at(b, p, 0) == Some(Seq::<VolumeModel>::empty()),
{
    bytes::lemma_power();
    record_laws::law_numbers_are_little_endian(b, p);
    record_laws::law_numbers_are_little_endian(b, p + 1);
    lemma_read(b, p + 2, 8, v.journal_id as int);
    lemma_read(b, p + 10, 8, bytes::unsigned(v.next_usn) as int);
    bytes::law_signed_round_trip(v.next_usn);
    lemma_read(b, p + 18, 4, v.names.len() as int);
    lemma_read(b, p + 22, 4, v.pys.len() as int);
    lemma_read(b, p + 26, 4, v.entries.len() as int);
    lemma_read(b, p + 30, 4, v.frns.len() as int);
    let m = snapshot::volume_at(b, p);
    let pys_at = p + 34 + 2 * v.names.len();
    let entries_at = pys_at + 2 * v.pys.len();
    let frns_at = entries_at + 24 * v.entries.len();
    assert(snapshot::names_end(b, p) == pys_at);
    assert(snapshot::pys_end(b, p) == entries_at);
    assert(snapshot::entries_end(b, p) == frns_at);
    assert(snapshot::volume_end(b, p) == p + stored_len(v));
    record_laws::lemma_units_read(b, p + 34, v.names);
    record_laws::lemma_units_read(b, pys_at, v.pys);
    assert forall|i: int| #![trigger m.entries[i]] 0 <= i < m.entries.len() implies m.entries[i]
        == snapshot::with_cjk_flag(v.entries[i]) by {
        let e = v.entries[i];
        assert(entry_stands(b, entries_at + 24 * i, e));
        lemma_entry_read(b, entries_at + i * 24, e);
    }
    assert forall|i: int| 0 <= i < v.frns.len() implies m.frns[i] == v.frns[i] by {
        let f = v.frns[i];
        assert(number_stands(b, frns_at + 8 * i, 8, f as int));
        lemma_read(b, frns_at + i * 8, 8, f as int);
    }
    assert(m.frns =~= v.frns);
    laws::lemma_slot_map(m.frns);
    assert(model::slot_map(m.frns) == m.frn_map);
}

proof fn lemma_read(b: Seq<u8>, at: int, n: int, x: int)
    requires
        number_stands(b, at, n, x),
        0 <= n,
        x < bytes::power(n as nat),
    ensures
        bytes::number_at(b, at, n) == x,
{
    bytes::law_le_round_trip(x as nat, n as nat);
}

proof fn lemma_entry_read(b: Seq<u8>, at: int, e: Entry)
    requires
        entry_stands(b, at, e),
    ensures
        snapshot::entry_at(b, at) == e,
{
    bytes::lemma_power();
    lemma_read(b, at, 8, e.parent as int);
    lemma_read(b, at + 8, 4, e.name_off as int);
    lemma_read(b, at + 12, 4, e.py_off as int);
    lemma_read(b, at + 16, 2, e.name_len as int);
    lemma_read(b, at + 18, 2, e.py_len as int);
    lemma_read(b, at + 20, 2, e.flags as int);
}

/// A volume of which not all bytes are there is not read, and nothing with it.
pub proof fn law_cut_volume_is_not_read(b: Seq<u8>, p: int, n: nat, a: u32, c: u32, d: u32, e: u32)
    requires
        0 <= p <= b.len(),
        n > 0,
        b.len() < p + 34 || number_stands(b, p + 18, 4, a as int) && number_stands(
            b,
            p + 22,
            4,
            c as int,
        ) && number_stands(b, p + 26, 4, d as int) && number_stands(b, p + 30, 4, e as int) && b.len()
            < p + 34 + 2 * a + 2 * c + 24 * d + 8 * e,
    ensures
        snapshot::volumes_at(b, p, n) is None,
{
    bytes::lemma_power();
    if b.len() >= p + 34 {
        lemma_read(b, p + 18, 4, a as int);
        lemma_read(b, p + 22, 4, c as int);
        lemma_read(b, p + 26, 4, d as int);
        lemma_read(b, p + 30, 4, e as int);
    }
}

} // verus!
