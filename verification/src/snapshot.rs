//! Index snapshots: the index as bytes, with a checksum at the end against damage. After a restart
//! the snapshot is loaded first and the journal caught up from there.

use vstd::prelude::*;
use vstd::slice::slice_subrange;

use crate::bytes;
use crate::bytes::{get, low_u16, low_u32, low_u8, put, read_units, to_signed, to_unsigned};
use crate::fx::map_insert;
use crate::index::{Index, VolumeIndex};
use crate::laws;
use crate::model;
use crate::model::VolumeModel;
use crate::text::char_code;
use crate::types;
use crate::types::{Entry, FLAG_IS_CJK};

verus! {

/// `QIDX`, read as a little-endian number.
pub const MAGIC: u32 = 0x5844_4951;

pub const VERSION: u16 = 2;

pub const FNV_OFFSET: u64 = 0xcbf2_9ce4_8422_2325;

pub const FNV_PRIME: u64 = 0x0000_0100_0000_01B3;

/// The size of a volume's header.
pub const VOLUME_HEADER: usize = 34;

/// The size of an entry, with two bytes that hold nothing.
pub const ENTRY_SIZE: usize = 24;

/// Why a snapshot was refused.
#[derive(Clone, Copy, Debug, PartialEq, Eq, Structural)]
pub enum SnapshotError {
    TooShort,
    ChecksumMismatch,
    IncompatibleVersion,
    Truncated,
}

impl SnapshotError {
    pub fn message(&self) -> (r: &'static str)
        ensures
            r@ == match *self {
                SnapshotError::TooShort => "快照过短"@,
                SnapshotError::ChecksumMismatch => "快照校验和不匹配"@,
                SnapshotError::IncompatibleVersion => "快照版本不兼容"@,
                SnapshotError::Truncated => "快照数据不完整"@,
            },
    {
        match *self {
            SnapshotError::TooShort => "快照过短",
            SnapshotError::ChecksumMismatch => "快照校验和不匹配",
            SnapshotError::IncompatibleVersion => "快照版本不兼容",
            SnapshotError::Truncated => "快照数据不完整",
        }
    }
}

/// The FNV-1a hash of bytes, from a given state on.
pub open spec fn fnv(data: Seq<u8>, start: u64) -> u64
    decreases data.len(),
{
    if data.len() == 0 {
        start
    } else {
        (((fnv(data.drop_last(), start) ^ (data.last() as u64)) as nat * FNV_PRIME as nat)
            % 0x1_0000_0000_0000_0000) as u64
    }
}

/// The checksum of bytes.
pub open spec fn checksum(data: Seq<u8>) -> u64 {
    fnv(data, FNV_OFFSET)
}

/// The FNV-1a hash of bytes; a seed of 0 stands for the usual offset.
pub fn fnv1a(data: &[u8], seed: u64) -> (r: u64)
    ensures
        r == fnv(
            data@,
            if seed == 0 {
                FNV_OFFSET
            } else {
                seed
            },
        ),
{
    let start: u64 = if seed == 0 {
        FNV_OFFSET
    } else {
        seed
    };
    let mut h: u64 = start;
    assert(data@.take(0) =~= seq![]);
    for i in 0..data.len()
        invariant
            h == fnv(data@.take(i as int), start),
    {
        assert(data@.take(i + 1).drop_last() =~= data@.take(i as int));
        h = (h ^ (data[i] as u64)).wrapping_mul(FNV_PRIME);
    }
    assert(data@.take(data@.len() as int) =~= data@);
    h
}

/// UTF-16 units as bytes.
pub open spec fn units_bytes(units: Seq<u16>) -> Seq<u8>
    decreases units.len(),
{
    if units.len() == 0 {
        seq![]
    } else {
        units_bytes(units.drop_last()) + bytes::to_le(units.last() as nat, 2)
    }
}

/// File reference numbers as bytes.
pub open spec fn frns_bytes(frns: Seq<u64>) -> Seq<u8>
    decreases frns.len(),
{
    if frns.len() == 0 {
        seq![]
    } else {
        frns_bytes(frns.drop_last()) + bytes::to_le(frns.last() as nat, 8)
    }
}

/// An entry as bytes.
pub open spec fn entry_bytes(e: Entry) -> Seq<u8> {
    bytes::to_le(e.parent as nat, 8) + bytes::to_le(e.name_off as nat, 4) + bytes::to_le(
        e.py_off as nat,
        4,
    ) + bytes::to_le(e.name_len as nat, 2) + bytes::to_le(e.py_len as nat, 2) + bytes::to_le(
        e.flags as nat,
        2,
    ) + bytes::to_le(0, 2)
}

/// Entries as bytes.
pub open spec fn entries_bytes(entries: Seq<Entry>) -> Seq<u8>
    decreases entries.len(),
{
    if entries.len() == 0 {
        seq![]
    } else {
        entries_bytes(entries.drop_last()) + entry_bytes(entries.last())
    }
}

/// The header of a volume: its letter, whether it is NTFS, its journal position and how much
/// follows. Letter and counts are cut to the width of their fields.
pub open spec fn header_bytes(m: VolumeModel) -> Seq<u8> {
    bytes::to_le((m.letter as int % 256) as nat, 1) + bytes::to_le(
        if m.is_ntfs {
            1
        } else {
            0
        },
        1,
    ) + bytes::to_le(m.journal_id as nat, 8) + bytes::to_le(bytes::unsigned(m.next_usn), 8)
        + bytes::to_le(m.names.len() % 0x1_0000_0000, 4) + bytes::to_le(
        m.pys.len() % 0x1_0000_0000,
        4,
    ) + bytes::to_le(m.entries.len() % 0x1_0000_0000, 4) + bytes::to_le(
        m.frns.len() % 0x1_0000_0000,
        4,
    )
}

/// A volume as bytes.
pub open spec fn volume_bytes(m: VolumeModel) -> Seq<u8> {
    header_bytes(m) + units_bytes(m.names) + units_bytes(m.pys) + entries_bytes(m.entries)
        + frns_bytes(m.frns)
}

/// Volumes as bytes.
pub open spec fn volumes_bytes(volumes: Seq<VolumeModel>) -> Seq<u8>
    decreases volumes.len(),
{
    if volumes.len() == 0 {
        seq![]
    } else {
        volumes_bytes(volumes.drop_last()) + volume_bytes(volumes.last())
    }
}

/// A snapshot without its checksum.
pub open spec fn body_bytes(volumes: Seq<VolumeModel>) -> Seq<u8> {
    bytes::to_le(MAGIC as nat, 4) + bytes::to_le(VERSION as nat, 2) + bytes::to_le(
        volumes.len() % 0x1_0000,
        2,
    ) + volumes_bytes(volumes)
}

/// A snapshot.
pub open spec fn sealed(body: Seq<u8>) -> Seq<u8> {
    body + bytes::to_le(checksum(body) as nat, 8)
}

pub(crate) fn put_units(out: &mut Vec<u8>, units: &[u16])
    ensures
        final(out)@ == old(out)@ + units_bytes(units@),
{
    let ghost start = out@;
    assert(units@.take(0) =~= seq![]);
    assert(start + Seq::<u8>::empty() =~= start);
    for i in 0..units.len()
        invariant
            out@ == start + units_bytes(units@.take(i as int)),
    {
        put(out, units[i] as u64, 2);
        assert(units@.take(i + 1).drop_last() =~= units@.take(i as int));
        assert(out@ =~= start + units_bytes(units@.take(i + 1)));
    }
    assert(units@.take(units@.len() as int) =~= units@);
}

fn put_frns(out: &mut Vec<u8>, frns: &[u64])
    ensures
        final(out)@ == old(out)@ + frns_bytes(frns@),
{
    let ghost start = out@;
    assert(frns@.take(0) =~= seq![]);
    assert(start + Seq::<u8>::empty() =~= start);
    for i in 0..frns.len()
        invariant
            out@ == start + frns_bytes(frns@.take(i as int)),
    {
        put(out, frns[i], 8);
        assert(frns@.take(i + 1).drop_last() =~= frns@.take(i as int));
        assert(out@ =~= start + frns_bytes(frns@.take(i + 1)));
    }
    assert(frns@.take(frns@.len() as int) =~= frns@);
}

fn put_entry(out: &mut Vec<u8>, e: &Entry)
    ensures
        final(out)@ == old(out)@ + entry_bytes(*e),
{
    put(out, e.parent, 8);
    put(out, e.name_off as u64, 4);
    put(out, e.py_off as u64, 4);
    put(out, e.name_len as u64, 2);
    put(out, e.py_len as u64, 2);
    put(out, e.flags as u64, 2);
    put(out, 0, 2);
    assert(out@ =~= old(out)@ + entry_bytes(*e));
}

fn put_entries(out: &mut Vec<u8>, entries: &[Entry])
    ensures
        final(out)@ == old(out)@ + entries_bytes(entries@),
{
    let ghost start = out@;
    assert(entries@.take(0) =~= seq![]);
    assert(start + Seq::<u8>::empty() =~= start);
    for i in 0..entries.len()
        invariant
            out@ == start + entries_bytes(entries@.take(i as int)),
    {
        put_entry(out, &entries[i]);
        assert(entries@.take(i + 1).drop_last() =~= entries@.take(i as int));
        assert(out@ =~= start + entries_bytes(entries@.take(i + 1)));
    }
    assert(entries@.take(entries@.len() as int) =~= entries@);
}

fn put_volume(out: &mut Vec<u8>, v: &VolumeIndex)
    ensures
        final(out)@ == old(out)@ + volume_bytes(v@),
{
    put(out, low_u8(char_code(v.letter)) as u64, 1);
    put(
        out,
        if v.is_ntfs {
            1
        } else {
            0
        },
        1,
    );
    put(out, v.journal_id, 8);
    put(out, to_unsigned(v.next_usn), 8);
    put(out, low_u32(v.names.len()) as u64, 4);
    put(out, low_u32(v.pys.len()) as u64, 4);
    put(out, low_u32(v.entries.len()) as u64, 4);
    put(out, low_u32(v.frns.len()) as u64, 4);
    assert(out@ =~= old(out)@ + header_bytes(v@));
    put_units(out, v.names.as_slice());
    put_units(out, v.pys.as_slice());
    put_entries(out, v.entries.as_slice());
    put_frns(out, v.frns.as_slice());
    assert(out@ =~= old(out)@ + volume_bytes(v@));
}

/// Writes the index as the bytes of a snapshot, without the checksum.
///
/// Only copies memory, so that a lock on the index need not be held while the bytes are hashed and
/// stored.
pub fn encode(index: &Index) -> (r: Vec<u8>)
    ensures
        r@ == body_bytes(index@),
{
    let mut body: Vec<u8> = Vec::new();
    put(&mut body, MAGIC as u64, 4);
    put(&mut body, VERSION as u64, 2);
    put(&mut body, low_u16(index.volumes.len()) as u64, 2);
    let ghost start = body@;
    assert(index@.take(0) =~= seq![]);
    assert(start + Seq::<u8>::empty() =~= start);
    for i in 0..index.volumes.len()
        invariant
            body@ == start + volumes_bytes(index@.take(i as int)),
    {
        put_volume(&mut body, &index.volumes[i]);
        assert(index@.take(i + 1).drop_last() =~= index@.take(i as int));
        assert(index@[i as int] == index.volumes@[i as int]@);
        assert(body@ =~= start + volumes_bytes(index@.take(i + 1)));
    }
    assert(index@.take(index@.len() as int) =~= index@);
    assert(body@ =~= body_bytes(index@));
    body
}

/// Puts the checksum at the end of a snapshot's bytes.
pub fn seal(body: Vec<u8>) -> (r: Vec<u8>)
    ensures
        r@ == sealed(body@),
{
    let mut out = body;
    let sum = fnv1a(out.as_slice(), 0);
    put(&mut out, sum, 8);
    out
}

/// File reference numbers read from a place on.
pub open spec fn frns_at(b: Seq<u8>, at: int, n: nat) -> Seq<u64> {
    Seq::new(n, |i: int| bytes::number_at(b, at + i * 8, 8) as u64)
}

/// The entry with the flag on Chinese characters where it has a pinyin spelling.
pub open spec fn with_cjk_flag(e: Entry) -> Entry {
    Entry { flags: types::flag_if(e.flags, FLAG_IS_CJK, e.py_len > 0), ..e }
}

/// The entry read from a place.
pub open spec fn entry_at(b: Seq<u8>, at: int) -> Entry {
    Entry {
        parent: bytes::number_at(b, at, 8) as u64,
        name_off: bytes::number_at(b, at + 8, 4) as u32,
        py_off: bytes::number_at(b, at + 12, 4) as u32,
        name_len: bytes::number_at(b, at + 16, 2) as u16,
        py_len: bytes::number_at(b, at + 18, 2) as u16,
        flags: bytes::number_at(b, at + 20, 2) as u16,
    }
}

/// Entries read from a place on.
pub open spec fn entries_at(b: Seq<u8>, at: int, n: nat) -> Seq<Entry> {
    Seq::new(n, |i: int| with_cjk_flag(entry_at(b, at + i * ENTRY_SIZE)))
}

/// Where the names of a volume end.
pub open spec fn names_end(b: Seq<u8>, p: int) -> int {
    p + VOLUME_HEADER + bytes::number_at(b, p + 18, 4) * 2
}

/// Where the spellings of a volume end.
pub open spec fn pys_end(b: Seq<u8>, p: int) -> int {
    names_end(b, p) + bytes::number_at(b, p + 22, 4) * 2
}

/// Where the entries of a volume end.
pub open spec fn entries_end(b: Seq<u8>, p: int) -> int {
    pys_end(b, p) + bytes::number_at(b, p + 26, 4) * ENTRY_SIZE
}

/// Where the bytes of a volume end.
pub open spec fn volume_end(b: Seq<u8>, p: int) -> int {
    entries_end(b, p) + bytes::number_at(b, p + 30, 4) * 8
}

/// The bytes of a volume are all there.
pub open spec fn has_volume(b: Seq<u8>, p: int) -> bool {
    p + VOLUME_HEADER <= b.len() && volume_end(b, p) <= b.len()
}

/// The volume read from a place.
pub open spec fn volume_at(b: Seq<u8>, p: int) -> VolumeModel {
    let frns = frns_at(b, entries_end(b, p), bytes::number_at(b, p + 30, 4));
    VolumeModel {
        letter: bytes::number_at(b, p, 1) as char,
        is_ntfs: bytes::number_at(b, p + 1, 1) != 0,
        journal_id: bytes::number_at(b, p + 2, 8) as u64,
        next_usn: bytes::signed(bytes::number_at(b, p + 10, 8)),
        names: bytes::units_at(b, p + VOLUME_HEADER, bytes::number_at(b, p + 18, 4)),
        pys: bytes::units_at(b, names_end(b, p), bytes::number_at(b, p + 22, 4)),
        entries: entries_at(b, pys_end(b, p), bytes::number_at(b, p + 26, 4)),
        frns,
        frn_map: model::slot_map(frns),
        start_menu: Set::empty(),
        deleted: 0,
    }
}

/// The given number of volumes read from a place on, if their bytes are all there.
pub open spec fn volumes_at(b: Seq<u8>, p: int, n: nat) -> Option<Seq<VolumeModel>>
    decreases n,
{
    if n == 0 {
        Some(seq![])
    } else if !has_volume(b, p) {
        None
    } else {
        match volumes_at(b, volume_end(b, p), (n - 1) as nat) {
            Some(rest) => Some(seq![volume_at(b, p)] + rest),
            None => None,
        }
    }
}

/// What the bytes of a snapshot hold.
pub open spec fn parsed(bytes: Seq<u8>) -> Result<Seq<VolumeModel>, SnapshotError> {
    let body = bytes.take(bytes.len() - 8);
    if bytes.len() < 16 {
        Err(SnapshotError::TooShort)
    } else if checksum(body) != bytes::number_at(bytes, bytes.len() - 8, 8) {
        Err(SnapshotError::ChecksumMismatch)
    } else if bytes::number_at(body, 0, 4) != MAGIC || bytes::number_at(body, 4, 2) != VERSION {
        Err(SnapshotError::IncompatibleVersion)
    } else {
        match volumes_at(body, 8, bytes::number_at(body, 6, 2)) {
            Some(volumes) => Ok(volumes),
            None => Err(SnapshotError::Truncated),
        }
    }
}

fn read_frns(b: &[u8], at: usize, n: usize) -> (r: Vec<u64>)
    requires
        at + n * 8 <= b@.len(),
    ensures
        r@ == frns_at(b@, at as int, n as nat),
{
    let mut out: Vec<u64> = Vec::new();
    assert(b.len() <= usize::MAX);
    for i in 0..n
        invariant
            at + n * 8 <= b@.len() <= usize::MAX,
            out@ == frns_at(b@, at as int, i as nat),
    {
        out.push(get(b, at + i * 8, 8));
        assert(out@ =~= frns_at(b@, at as int, (i + 1) as nat));
    }
    out
}

fn read_entry(b: &[u8], at: usize) -> (r: Entry)
    requires
        at + ENTRY_SIZE <= b@.len(),
    ensures
        r == entry_at(b@, at as int),
{
    proof {
        bytes::lemma_power();
    }
    assert(b.len() <= usize::MAX);
    Entry {
        parent: get(b, at, 8),
        name_off: get(b, at + 8, 4) as u32,
        py_off: get(b, at + 12, 4) as u32,
        name_len: get(b, at + 16, 2) as u16,
        py_len: get(b, at + 18, 2) as u16,
        flags: get(b, at + 20, 2) as u16,
    }
}

fn read_entries(b: &[u8], at: usize, n: usize) -> (r: Vec<Entry>)
    requires
        at + n * ENTRY_SIZE <= b@.len(),
    ensures
        r@ == entries_at(b@, at as int, n as nat),
{
    let mut out: Vec<Entry> = Vec::new();
    assert(b.len() <= usize::MAX);
    for i in 0..n
        invariant
            at + n * ENTRY_SIZE <= b@.len() <= usize::MAX,
            out@ == entries_at(b@, at as int, i as nat),
    {
        let mut e = read_entry(b, at + i * ENTRY_SIZE);
        if e.py_len > 0 {
            e.flags = e.flags | FLAG_IS_CJK;
        }
        out.push(e);
        assert(out@ =~= entries_at(b@, at as int, (i + 1) as nat));
    }
    out
}

/// Reads a volume and tells where its bytes end.
fn read_volume(b: &[u8], p: usize) -> (r: Option<(VolumeIndex, usize)>)
    requires
        p <= b@.len(),
    ensures
        match r {
            Some((v, end)) => has_volume(b@, p as int) && v@ == volume_at(b@, p as int) && end
                == volume_end(b@, p as int),
            None => !has_volume(b@, p as int),
        },
{
    if b.len() - p < VOLUME_HEADER {
        return None;
    }
    proof {
        bytes::lemma_power();
    }
    assert(b.len() <= usize::MAX);
    let names_n = get(b, p + 18, 4);
    let pys_n = get(b, p + 22, 4);
    let entries_n = get(b, p + 26, 4);
    let frns_n = get(b, p + 30, 4);
    let need: u64 = 34 + names_n * 2 + pys_n * 2 + entries_n * 24 + frns_n * 8;
    if ((b.len() - p) as u64) < need {
        return None;
    }
    let names_at: usize = p + VOLUME_HEADER;
    let pys_at: usize = names_at + names_n as usize * 2;
    let entries_at: usize = pys_at + pys_n as usize * 2;
    let frns_at: usize = entries_at + entries_n as usize * ENTRY_SIZE;
    let letter = get(b, p, 1) as u8 as char;
    let mut v = VolumeIndex::new(letter, get(b, p + 1, 1) != 0);
    v.journal_id = get(b, p + 2, 8);
    v.next_usn = to_signed(get(b, p + 10, 8));
    v.names = read_units(b, names_at, names_n as usize);
    v.pys = read_units(b, pys_at, pys_n as usize);
    v.entries = read_entries(b, entries_at, entries_n as usize);
    v.frns = read_frns(b, frns_at, frns_n as usize);
    let n: usize = v.frns.len();
    let ghost frns = v.frns@;
    let ghost before = v@;
    assert(frns.take(0) =~= seq![]);
    for i in 0..n
        invariant
            n == frns.len(),
            n <= u32::MAX,
            frns == v.frns@,
            v@ == (VolumeModel { frn_map: model::slot_map(frns.take(i as int)), ..before }),
    {
        let frn = v.frns[i];
        assert(frns.take(i + 1).drop_last() =~= frns.take(i as int));
        if frn != 0 {
            map_insert(&mut v.frn_map, frn, i as u32);
        }
    }
    assert(frns.take(n as int) =~= frns);
    assert(v@ =~= volume_at(b@, p as int));
    Some((v, frns_at + frns_n as usize * 8))
}

/// Reads the bytes of a snapshot. Bytes that follow the last volume are ignored.
pub fn parse_snapshot(buf: &[u8]) -> (r: Result<Index, SnapshotError>)
    ensures
        match r {
            Ok(index) => parsed(buf@) == Ok::<Seq<VolumeModel>, SnapshotError>(index@),
            Err(e) => parsed(buf@) == Err::<Seq<VolumeModel>, SnapshotError>(e),
        },
{
    if buf.len() < 16 {
        return Err(SnapshotError::TooShort);
    }
    let body = slice_subrange(buf, 0, buf.len() - 8);
    assert(body@ =~= buf@.take(buf@.len() - 8));
    let stored = get(buf, buf.len() - 8, 8);
    if fnv1a(body, 0) != stored {
        return Err(SnapshotError::ChecksumMismatch);
    }
    let magic = get(body, 0, 4);
    let version = get(body, 4, 2);
    if magic != MAGIC as u64 || version != VERSION as u64 {
        return Err(SnapshotError::IncompatibleVersion);
    }
    let count = get(body, 6, 2);
    proof {
        bytes::lemma_power();
    }
    let mut index = Index::new();
    let mut p: usize = 8;
    let mut left: u64 = count;
    let ghost all = volumes_at(body@, 8, count as nat);
    while left > 0
        invariant
            p <= body@.len(),
            left <= count,
            all is None ==> parsed(buf@) == Err::<Seq<VolumeModel>, SnapshotError>(
                SnapshotError::Truncated,
            ),
            all == match volumes_at(body@, p as int, left as nat) {
                Some(rest) => Some(index@ + rest),
                None => None,
            },
        ensures
            left == 0,
        decreases left,
    {
        match read_volume(body, p) {
            Some((v, end)) => {
                let ghost had = index@;
                let ghost m = v@;
                index.volumes.push(v);
                proof {
                    assert(index@ =~= had.push(m));
                    let rest = volumes_at(body@, end as int, (left - 1) as nat);
                    if rest is Some {
                        assert(had + (seq![m] + rest->0) =~= index@ + rest->0);
                    }
                }
                p = end;
                left = left - 1;
            },
            None => {
                return Err(SnapshotError::Truncated);
            },
        }
    }
    assert(index@ + Seq::<VolumeModel>::empty() =~= index@);
    Ok(index)
}

/// What a snapshot keeps of a volume: neither the start menu directories nor the count of
/// removals; the map is made anew, and the flag on Chinese characters is set where there is a
/// pinyin spelling.
pub open spec fn restored(m: VolumeModel) -> VolumeModel {
    VolumeModel {
        entries: m.entries.map_values(|e: Entry| with_cjk_flag(e)),
        frn_map: model::slot_map(m.frns),
        start_menu: Set::empty(),
        deleted: 0,
        ..m
    }
}

/// The volume fits the fields of a snapshot.
pub open spec fn storable(m: VolumeModel) -> bool {
    &&& m.letter as int <= 0xFF
    &&& m.names.len() <= u32::MAX
    &&& m.pys.len() <= u32::MAX
    &&& m.entries.len() <= u32::MAX
    &&& m.frns.len() <= u32::MAX
}

/// `part` stands in `b` at a place.
spec fn holds(b: Seq<u8>, at: int, part: Seq<u8>) -> bool {
    0 <= at && at + part.len() <= b.len() && b.subrange(at, at + part.len()) == part
}

proof fn lemma_holds_concat(b: Seq<u8>, at: int, x: Seq<u8>, y: Seq<u8>)
    requires
        holds(b, at, x + y),
    ensures
        holds(b, at, x),
        holds(b, at + x.len() as int, y),
{
    let xy = x + y;
    assert forall|i: int| 0 <= i < x.len() implies b[at + i] == x[i] by {
        assert(b.subrange(at, at + xy.len())[i] == xy[i]);
    }
    assert forall|i: int| 0 <= i < y.len() implies b[at + x.len() + i] == y[i] by {
        assert(b.subrange(at, at + xy.len())[x.len() + i] == xy[x.len() + i]);
    }
    assert(b.subrange(at, at + x.len()) =~= x);
    assert(b.subrange(at + x.len(), at + x.len() + y.len()) =~= y);
}

proof fn lemma_number_held(b: Seq<u8>, at: int, x: nat, n: nat)
    requires
        holds(b, at, bytes::to_le(x, n)),
        x < bytes::power(n),
    ensures
        bytes::number_at(b, at, n as int) == x,
{
    bytes::law_le_round_trip(x, n);
}

proof fn lemma_units_held(b: Seq<u8>, at: int, units: Seq<u16>)
    requires
        holds(b, at, units_bytes(units)),
    ensures
        units_bytes(units).len() == units.len() * 2,
        bytes::units_at(b, at, units.len()) == units,
    decreases units.len(),
{
    if units.len() > 0 {
        let rest = units.drop_last();
        lemma_holds_concat(b, at, units_bytes(rest), bytes::to_le(units.last() as nat, 2));
        lemma_units_held(b, at, rest);
        bytes::lemma_to_le_len(units.last() as nat, 2);
        bytes::lemma_power();
        lemma_number_held(b, at + rest.len() * 2, units.last() as nat, 2);
        assert(bytes::units_at(b, at, units.len()) =~= units) by {
            assert forall|i: int| 0 <= i < units.len() implies bytes::units_at(b, at, units.len())[i]
                == units[i] by {
                if i < rest.len() {
                    assert(bytes::units_at(b, at, rest.len())[i] == rest[i]);
                }
            }
        }
    } else {
        assert(bytes::units_at(b, at, 0) =~= units);
    }
}

/// Units that were put into bytes are read back from them.
pub proof fn lemma_units_bytes_read(units: Seq<u16>)
    ensures
        units_bytes(units).len() == units.len() * 2,
        bytes::units_at(units_bytes(units), 0, units.len()) == units,
{
    let b = units_bytes(units);
    assert(b.subrange(0, b.len() as int) =~= b);
    lemma_units_held(b, 0, units);
}

proof fn lemma_frns_held(b: Seq<u8>, at: int, frns: Seq<u64>)
    requires
        holds(b, at, frns_bytes(frns)),
    ensures
        frns_bytes(frns).len() == frns.len() * 8,
        frns_at(b, at, frns.len()) == frns,
    decreases frns.len(),
{
    if frns.len() > 0 {
        let rest = frns.drop_last();
        lemma_holds_concat(b, at, frns_bytes(rest), bytes::to_le(frns.last() as nat, 8));
        lemma_frns_held(b, at, rest);
        bytes::lemma_to_le_len(frns.last() as nat, 8);
        bytes::lemma_power();
        lemma_number_held(b, at + rest.len() * 8, frns.last() as nat, 8);
        assert(frns_at(b, at, frns.len()) =~= frns) by {
            assert forall|i: int| 0 <= i < frns.len() implies frns_at(b, at, frns.len())[i]
                == frns[i] by {
                if i < rest.len() {
                    assert(frns_at(b, at, rest.len())[i] == rest[i]);
                }
            }
        }
    } else {
        assert(frns_at(b, at, 0) =~= frns);
    }
}

proof fn lemma_entry_held(b: Seq<u8>, at: int, e: Entry)
    requires
        holds(b, at, entry_bytes(e)),
    ensures
        entry_bytes(e).len() == ENTRY_SIZE,
        entry_at(b, at) == e,
{
    let p1 = bytes::to_le(e.parent as nat, 8);
    let p2 = bytes::to_le(e.name_off as nat, 4);
    let p3 = bytes::to_le(e.py_off as nat, 4);
    let p4 = bytes::to_le(e.name_len as nat, 2);
    let p5 = bytes::to_le(e.py_len as nat, 2);
    let p6 = bytes::to_le(e.flags as nat, 2);
    let p7 = bytes::to_le(0, 2);
    bytes::lemma_to_le_len(e.parent as nat, 8);
    bytes::lemma_to_le_len(e.name_off as nat, 4);
    bytes::lemma_to_le_len(e.py_off as nat, 4);
    bytes::lemma_to_le_len(e.name_len as nat, 2);
    bytes::lemma_to_le_len(e.py_len as nat, 2);
    bytes::lemma_to_le_len(e.flags as nat, 2);
    bytes::lemma_to_le_len(0, 2);
    bytes::lemma_power();
    lemma_holds_concat(b, at, p1 + p2 + p3 + p4 + p5 + p6, p7);
    lemma_holds_concat(b, at, p1 + p2 + p3 + p4 + p5, p6);
    lemma_holds_concat(b, at, p1 + p2 + p3 + p4, p5);
    lemma_holds_concat(b, at, p1 + p2 + p3, p4);
    lemma_holds_concat(b, at, p1 + p2, p3);
    lemma_holds_concat(b, at, p1, p2);
    lemma_number_held(b, at, e.parent as nat, 8);
    lemma_number_held(b, at + 8, e.name_off as nat, 4);
    lemma_number_held(b, at + 12, e.py_off as nat, 4);
    lemma_number_held(b, at + 16, e.name_len as nat, 2);
    lemma_number_held(b, at + 18, e.py_len as nat, 2);
    lemma_number_held(b, at + 20, e.flags as nat, 2);
}

proof fn lemma_entries_held(b: Seq<u8>, at: int, entries: Seq<Entry>)
    requires
        holds(b, at, entries_bytes(entries)),
    ensures
        entries_bytes(entries).len() == entries.len() * ENTRY_SIZE,
        entries_at(b, at, entries.len()) == entries.map_values(|e: Entry| with_cjk_flag(e)),
    decreases entries.len(),
{
    let want = entries.map_values(|e: Entry| with_cjk_flag(e));
    if entries.len() > 0 {
        let rest = entries.drop_last();
        lemma_holds_concat(b, at, entries_bytes(rest), entry_bytes(entries.last()));
        lemma_entries_held(b, at, rest);
        lemma_entry_held(b, at + rest.len() * ENTRY_SIZE, entries.last());
        assert(entries_at(b, at, entries.len()) =~= want) by {
            assert forall|i: int| 0 <= i < entries.len() implies entries_at(b, at, entries.len())[i]
                == want[i] by {
                if i < rest.len() {
                    assert(entries_at(b, at, rest.len())[i] == rest.map_values(
                        |e: Entry| with_cjk_flag(e),
                    )[i]);
                }
            }
        }
    } else {
        assert(entries_at(b, at, 0) =~= want);
    }
}

proof fn lemma_header_held(b: Seq<u8>, p: int, m: VolumeModel)
    requires
        holds(b, p, header_bytes(m)),
        storable(m),
    ensures
        header_bytes(m).len() == VOLUME_HEADER,
        bytes::number_at(b, p, 1) == m.letter as int,
        (bytes::number_at(b, p + 1, 1) != 0) == m.is_ntfs,
        bytes::number_at(b, p + 2, 8) == m.journal_id,
        bytes::signed(bytes::number_at(b, p + 10, 8)) == m.next_usn,
        bytes::number_at(b, p + 18, 4) == m.names.len(),
        bytes::number_at(b, p + 22, 4) == m.pys.len(),
        bytes::number_at(b, p + 26, 4) == m.entries.len(),
        bytes::number_at(b, p + 30, 4) == m.frns.len(),
{
    let ntfs: nat = if m.is_ntfs {
        1
    } else {
        0
    };
    let p1 = bytes::to_le((m.letter as int % 256) as nat, 1);
    let p2 = bytes::to_le(ntfs, 1);
    let p3 = bytes::to_le(m.journal_id as nat, 8);
    let p4 = bytes::to_le(bytes::unsigned(m.next_usn), 8);
    let p5 = bytes::to_le(m.names.len() % 0x1_0000_0000, 4);
    let p6 = bytes::to_le(m.pys.len() % 0x1_0000_0000, 4);
    let p7 = bytes::to_le(m.entries.len() % 0x1_0000_0000, 4);
    let p8 = bytes::to_le(m.frns.len() % 0x1_0000_0000, 4);
    bytes::lemma_to_le_len((m.letter as int % 256) as nat, 1);
    bytes::lemma_to_le_len(ntfs, 1);
    bytes::lemma_to_le_len(m.journal_id as nat, 8);
    bytes::lemma_to_le_len(bytes::unsigned(m.next_usn), 8);
    bytes::lemma_to_le_len(m.names.len() % 0x1_0000_0000, 4);
    bytes::lemma_to_le_len(m.pys.len() % 0x1_0000_0000, 4);
    bytes::lemma_to_le_len(m.entries.len() % 0x1_0000_0000, 4);
    bytes::lemma_to_le_len(m.frns.len() % 0x1_0000_0000, 4);
    bytes::lemma_power();
    bytes::law_signed_round_trip(m.next_usn);
    lemma_holds_concat(b, p, p1 + p2 + p3 + p4 + p5 + p6 + p7, p8);
    lemma_holds_concat(b, p, p1 + p2 + p3 + p4 + p5 + p6, p7);
    lemma_holds_concat(b, p, p1 + p2 + p3 + p4 + p5, p6);
    lemma_holds_concat(b, p, p1 + p2 + p3 + p4, p5);
    lemma_holds_concat(b, p, p1 + p2 + p3, p4);
    lemma_holds_concat(b, p, p1 + p2, p3);
    lemma_holds_concat(b, p, p1, p2);
    lemma_number_held(b, p, (m.letter as int % 256) as nat, 1);
    lemma_number_held(b, p + 1, ntfs, 1);
    lemma_number_held(b, p + 2, m.journal_id as nat, 8);
    lemma_number_held(b, p + 10, bytes::unsigned(m.next_usn), 8);
    lemma_number_held(b, p + 18, m.names.len() % 0x1_0000_0000, 4);
    lemma_number_held(b, p + 22, m.pys.len() % 0x1_0000_0000, 4);
    lemma_number_held(b, p + 26, m.entries.len() % 0x1_0000_0000, 4);
    lemma_number_held(b, p + 30, m.frns.len() % 0x1_0000_0000, 4);
}

proof fn lemma_volume_held(b: Seq<u8>, p: int, m: VolumeModel)
    requires
        holds(b, p, volume_bytes(m)),
        storable(m),
    ensures
        has_volume(b, p),
        volume_end(b, p) == p + volume_bytes(m).len(),
        volume_at(b, p) == restored(m),
{
    let h = header_bytes(m);
    let n = units_bytes(m.names);
    let y = units_bytes(m.pys);
    let e = entries_bytes(m.entries);
    let f = frns_bytes(m.frns);
    lemma_holds_concat(b, p, h + n + y + e, f);
    lemma_holds_concat(b, p, h + n + y, e);
    lemma_holds_concat(b, p, h + n, y);
    lemma_holds_concat(b, p, h, n);
    lemma_header_held(b, p, m);
    lemma_units_held(b, p + h.len() as int, m.names);
    lemma_units_held(b, p + (h + n).len() as int, m.pys);
    lemma_entries_held(b, p + (h + n + y).len() as int, m.entries);
    lemma_frns_held(b, p + (h + n + y + e).len() as int, m.frns);
    assert(volume_at(b, p) =~= restored(m));
}

proof fn lemma_volumes_held(b: Seq<u8>, p: int, volumes: Seq<VolumeModel>)
    requires
        holds(b, p, volumes_bytes(volumes)),
        forall|v: int| #![trigger volumes[v]] 0 <= v < volumes.len() ==> storable(volumes[v]),
    ensures
        volumes_at(b, p, volumes.len()) == Some(volumes.map_values(|m: VolumeModel| restored(m))),
    decreases volumes.len(),
{
    let want = volumes.map_values(|m: VolumeModel| restored(m));
    if volumes.len() > 0 {
        let first = volumes.first();
        let rest = volumes.drop_first();
        lemma_volumes_bytes_first(volumes);
        lemma_holds_concat(b, p, volume_bytes(first), volumes_bytes(rest));
        assert(volumes[0] == first);
        lemma_volume_held(b, p, first);
        assert forall|v: int| #![trigger rest[v]] 0 <= v < rest.len() implies storable(rest[v]) by {
            assert(rest[v] == volumes[v + 1]);
        }
        lemma_volumes_held(b, volume_end(b, p), rest);
        assert(want =~= seq![restored(first)] + rest.map_values(|m: VolumeModel| restored(m)));
    } else {
        assert(want =~= seq![]);
    }
}

proof fn lemma_volumes_bytes_first(volumes: Seq<VolumeModel>)
    requires
        volumes.len() > 0,
    ensures
        volumes_bytes(volumes) == volume_bytes(volumes.first()) + volumes_bytes(
            volumes.drop_first(),
        ),
    decreases volumes.len(),
{
    if volumes.len() == 1 {
        assert(volumes.drop_last() =~= seq![]);
        assert(volumes.drop_first() =~= seq![]);
        assert(volumes.first() == volumes.last());
        let only = volume_bytes(volumes.first());
        assert(volumes_bytes(volumes.drop_last()) == Seq::<u8>::empty());
        assert(volumes_bytes(volumes) =~= only);
        assert(only + volumes_bytes(volumes.drop_first()) =~= only);
    } else {
        let init = volumes.drop_last();
        lemma_volumes_bytes_first(init);
        assert(init.first() == volumes.first());
        assert(init.drop_first() =~= volumes.drop_first().drop_last());
        assert(volumes.drop_first().last() == volumes.last());
        let a = volume_bytes(volumes.first());
        let x = volumes_bytes(init.drop_first());
        let z = volume_bytes(volumes.last());
        assert(a + x + z =~= a + (x + z));
    }
}

/// A snapshot gives back what was stored.
pub proof fn law_snapshot_round_trip(volumes: Seq<VolumeModel>)
    requires
        volumes.len() <= u16::MAX,
        forall|v: int| #![trigger volumes[v]] 0 <= v < volumes.len() ==> storable(volumes[v]),
    ensures
        parsed(sealed(body_bytes(volumes))) == Ok::<Seq<VolumeModel>, SnapshotError>(
            volumes.map_values(|m: VolumeModel| restored(m)),
        ),
{
    let body = body_bytes(volumes);
    lemma_body_held(volumes);
    lemma_sealed(body);
}

pub proof fn lemma_sealed(body: Seq<u8>)
    ensures
        sealed(body).len() == body.len() + 8,
        sealed(body).take(sealed(body).len() - 8) == body,
        bytes::number_at(sealed(body), sealed(body).len() - 8, 8) == checksum(body),
{
    let all = sealed(body);
    let sum = checksum(body) as nat;
    bytes::lemma_power();
    bytes::lemma_to_le_len(sum, 8);
    assert(all.take(all.len() - 8) =~= body);
    assert(all.subrange(all.len() - 8, all.len() as int) =~= bytes::to_le(sum, 8));
    lemma_number_held(all, all.len() - 8, sum, 8);
}

pub proof fn lemma_body_held(volumes: Seq<VolumeModel>)
    requires
        volumes.len() <= u16::MAX,
        forall|v: int| #![trigger volumes[v]] 0 <= v < volumes.len() ==> storable(volumes[v]),
    ensures
        body_bytes(volumes).len() >= 8,
        bytes::number_at(body_bytes(volumes), 0, 4) == MAGIC,
        bytes::number_at(body_bytes(volumes), 4, 2) == VERSION,
        bytes::number_at(body_bytes(volumes), 6, 2) == volumes.len(),
        volumes_at(body_bytes(volumes), 8, volumes.len()) == Some(
            volumes.map_values(|m: VolumeModel| restored(m)),
        ),
{
    let b = body_bytes(volumes);
    let rest = volumes_bytes(volumes);
    lemma_head_held(b, MAGIC as nat, VERSION as nat, volumes.len() % 0x1_0000, rest);
    assert(volumes.len() % 0x1_0000 == volumes.len());
    assert(holds(b, 8, rest));
    lemma_volumes_held(b, 8, volumes);
}

proof fn lemma_head_held(b: Seq<u8>, magic: nat, version: nat, count: nat, rest: Seq<u8>)
    requires
        b == bytes::to_le(magic, 4) + bytes::to_le(version, 2) + bytes::to_le(count, 2) + rest,
        magic <= u32::MAX,
        version <= u16::MAX,
        count <= u16::MAX,
    ensures
        b.len() >= 8,
        bytes::number_at(b, 0, 4) == magic,
        bytes::number_at(b, 4, 2) == version,
        bytes::number_at(b, 6, 2) == count,
        holds(b, 8, rest),
{
    let p1 = bytes::to_le(magic, 4);
    let p2 = bytes::to_le(version, 2);
    let p3 = bytes::to_le(count, 2);
    bytes::lemma_power();
    bytes::lemma_to_le_len(magic, 4);
    bytes::lemma_to_le_len(version, 2);
    bytes::lemma_to_le_len(count, 2);
    assert(b.subrange(0, b.len() as int) =~= b);
    lemma_holds_concat(b, 0, p1 + p2 + p3, rest);
    lemma_holds_concat(b, 0, p1 + p2, p3);
    lemma_holds_concat(b, 0, p1, p2);
    lemma_number_held(b, 0, magic, 4);
    lemma_number_held(b, 4, version, 2);
    lemma_number_held(b, 6, count, 2);
}

/// A well-formed index in which every entry with a pinyin spelling is flagged is restored with all
/// its files: the same files under the same numbers, in the same slots, with the same paths.
pub proof fn law_restored_same(m: VolumeModel)
    requires
        m.wf(),
        laws::cjk_flagged(m),
    ensures
        restored(m) == (VolumeModel { start_menu: Set::empty(), deleted: 0, ..m }),
        restored(m).wf(),
        restored(m).live() == m.live(),
        forall|slot: int| #[trigger] restored(m).path(slot) == m.path(slot),
{
    let r = restored(m);
    laws::lemma_slot_map(m.frns);
    assert(r.entries =~= m.entries);
    assert forall|f: u64| r.frn_map.contains_key(f) == m.frn_map.contains_key(f) && (
    m.frn_map.contains_key(f) ==> r.frn_map[f] == m.frn_map[f]) by {
        if m.frn_map.contains_key(f) {
            assert(m.frns[m.frn_map[f] as int] == f);
            assert(m.frns[r.frn_map[f] as int] == f);
        }
        if r.frn_map.contains_key(f) {
            assert(m.frns[r.frn_map[f] as int] == f);
        }
    }
    assert(r.frn_map =~= m.frn_map);
    assert(r.live() =~= m.live());
    assert forall|slot: int| #[trigger] r.path(slot) == m.path(slot) by {
        lemma_same_chain(r, m, slot, model::MAX_DEPTH as nat);
    }
}

proof fn lemma_same_chain(a: VolumeModel, b: VolumeModel, slot: int, steps: nat)
    requires
        a.names == b.names,
        a.entries == b.entries,
        a.frn_map == b.frn_map,
    ensures
        a.chain(slot, steps) == b.chain(slot, steps),
    decreases steps,
{
    if steps > 0 && 0 <= slot < a.entries.len() {
        let parent = a.entries[slot].parent;
        lemma_same_chain(a, b, a.frn_map[parent] as int, (steps - 1) as nat);
    }
}

/// The number by which a product with the FNV prime is undone.
pub const FNV_INVERSE: u64 = 0xce965057aff6957b;

/// One step of the hash, a byte after a state, tells states apart that differ, and bytes that
/// differ.
proof fn lemma_fnv_step(g: u64, h: u64, a: u8, b: u8)
    requires
        g != h && a == b || g == h && a != b,
    ensures
        ((g ^ (a as u64)) as nat * FNV_PRIME as nat) % 0x1_0000_0000_0000_0000 != ((h ^ (b as u64))
            as nat * FNV_PRIME as nat) % 0x1_0000_0000_0000_0000,
{
    let x = g ^ (a as u64);
    let y = h ^ (b as u64);
    assert(g != h && a == b || g == h && a != b ==> g ^ (a as u64) != h ^ (b as u64))
        by (bit_vector);
    lemma_times_prime(x);
    lemma_times_prime(y);
}

/// A product with the FNV prime, cut to 64 bits, can be undone.
proof fn lemma_times_prime(x: u64)
    ensures
        ((((x as nat * FNV_PRIME as nat) % 0x1_0000_0000_0000_0000) as u64) as nat
            * FNV_INVERSE as nat) % 0x1_0000_0000_0000_0000 == x,
{
    assert(((x * 0x0000_0100_0000_01B3u64) % 0x1_0000_0000_0000_0000) * 0xce965057aff6957b
        % 0x1_0000_0000_0000_0000 == x) by (bit_vector);
}

/// Where one byte is another, the hash is another.
proof fn lemma_fnv_differs(data: Seq<u8>, i: int, b: u8, start: u64)
    requires
        0 <= i < data.len(),
        data[i] != b,
    ensures
        fnv(data.update(i, b), start) != fnv(data, start),
    decreases data.len(),
{
    let changed = data.update(i, b);
    if i == data.len() - 1 {
        assert(changed.drop_last() =~= data.drop_last());
        lemma_fnv_step(fnv(data.drop_last(), start), fnv(data.drop_last(), start), data.last(), b);
    } else {
        assert(changed.drop_last() =~= data.drop_last().update(i, b));
        lemma_fnv_differs(data.drop_last(), i, b, start);
        lemma_fnv_step(
            fnv(changed.drop_last(), start),
            fnv(data.drop_last(), start),
            data.last(),
            data.last(),
        );
    }
}

/// A snapshot of which any one byte was damaged is refused.
pub proof fn law_damaged_byte_is_noticed(body: Seq<u8>, i: int, b: u8)
    requires
        body.len() >= 8,
        0 <= i < sealed(body).len(),
        sealed(body)[i] != b,
    ensures
        parsed(sealed(body).update(i, b)) == Err::<Seq<VolumeModel>, SnapshotError>(
            SnapshotError::ChecksumMismatch,
        ),
{
    let good = sealed(body);
    let bad = good.update(i, b);
    lemma_sealed(body);
    let n = body.len() as int;
    let tail = good.subrange(n, n + 8);
    if i < n {
        assert(bad.take(bad.len() - 8) =~= body.update(i, b));
        assert(bad.subrange(n, n + 8) =~= tail);
        lemma_fnv_differs(body, i, b, FNV_OFFSET);
    } else {
        assert(bad.take(bad.len() - 8) =~= body);
        assert(bad.subrange(n, n + 8) =~= tail.update(i - n, b));
        bytes::lemma_le_differs(tail, i - n, b);
    }
}

} // verus!
