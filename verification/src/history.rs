//! What holds of every index that the operations on it can lead to, whatever came before.

use vstd::prelude::*;

use crate::laws;
use crate::model;
use crate::model::{Node, VolumeModel};
use crate::py;
use crate::types;
use crate::types::{FLAG_IS_CJK, FLAG_IS_DIR, FLAG_IS_PATH};

verus! {

/// An operation on the index of a volume.
pub enum Op {
    Upsert { frn: u64, parent: u64, name: Seq<u16>, is_dir: bool },
    PushPath { path: Seq<u16>, is_dir: bool },
    Remove { frn: u64 },
    Compact,
    MarkStartMenu { paths: Seq<Seq<Seq<char>>> },
}

/// The index after an operation.
pub open spec fn performed(m: VolumeModel, op: Op) -> VolumeModel {
    match op {
        Op::Upsert { frn, parent, name, is_dir } => m.upsert(
            frn,
            parent,
            name,
            is_dir,
            py::name_spelling(name),
        ),
        Op::PushPath { path, is_dir } => m.push_path(
            path,
            is_dir,
            py::name_spelling(model::file_part(path)),
        ),
        Op::Remove { frn } => m.remove(frn),
        Op::Compact => m.compact(),
        Op::MarkStartMenu { paths } => m.mark_start_menu(paths),
    }
}

/// A name, stored as it is or as the end of a path, whose text and spelling fit the fields of an
/// entry. A spelling that there is holds something.
pub open spec fn text_fits(text: Seq<u16>, name: Seq<u16>) -> bool {
    &&& text.len() <= u16::MAX
    &&& py::name_spelling(name) matches Some(p) ==> 0 < p.len() <= u16::MAX
}

/// An operation can be performed: there is a slot for a new entry, what is stored fits its fields,
/// no file has the number 0, and the pools stay within what offsets can address.
pub open spec fn can_perform(m: VolumeModel, op: Op) -> bool {
    match op {
        Op::Upsert { frn, parent, name, is_dir } => {
            &&& performed(m, op).addressable()
            &&& frn != 0
            &&& m.frn_map.contains_key(frn) || m.entries.len() < u32::MAX
            &&& text_fits(name, name)
        },
        Op::PushPath { path, is_dir } => {
            &&& performed(m, op).addressable()
            &&& m.entries.len() < u32::MAX
            &&& text_fits(path, model::file_part(path))
        },
        _ => true,
    }
}

/// The index after some operations.
pub open spec fn after(m: VolumeModel, ops: Seq<Op>) -> VolumeModel
    decreases ops.len(),
{
    if ops.len() == 0 {
        m
    } else {
        performed(after(m, ops.drop_last()), ops.last())
    }
}

/// Some operations can be performed one after the other.
pub open spec fn can_run(m: VolumeModel, ops: Seq<Op>) -> bool
    decreases ops.len(),
{
    ops.len() == 0 || can_run(m, ops.drop_last()) && can_perform(
        after(m, ops.drop_last()),
        ops.last(),
    )
}

/// The name that an entry is known by: of a path entry, its file name.
pub open spec fn known_name(n: Node) -> Seq<u16> {
    if types::has_flag(n.flags, FLAG_IS_PATH) {
        model::file_part(n.name)
    } else {
        n.name
    }
}

/// An entry has the spelling of its name where the name has one, else none, and carries the flag on
/// Chinese characters exactly where it has one.
pub open spec fn rightly_spelled(n: Node) -> bool {
    &&& match py::name_spelling(known_name(n)) {
        Some(p) => n.py == p && p.len() > 0,
        None => n.py.len() == 0,
    }
    &&& types::has_flag(n.flags, FLAG_IS_CJK) == (n.py.len() > 0)
}

/// All entries are rightly spelled; one without a spelling has the offset 0.
pub open spec fn all_spelled(m: VolumeModel) -> bool {
    forall|s: int| #![trigger m.entries[s]]
        0 <= s < m.entries.len() ==> rightly_spelled(m.node(s)) && (m.entries[s].py_len == 0
            ==> m.entries[s].py_off == 0)
}

/// An index in order: it is well-formed, its pools can be addressed, and every entry has exactly the
/// spelling of its name.
pub open spec fn in_order(m: VolumeModel) -> bool {
    m.wf() && m.addressable() && all_spelled(m)
}

/// A name, stored as it is or as the end of a path, that is short enough for its text and for any
/// spelling of it. Names of files on disk are.
pub open spec fn is_short_enough(text: Seq<u16>, name: Seq<u16>) -> bool {
    text.len() <= u16::MAX && py::GROWTH_MAX * name.len() <= u16::MAX
}

/// What stands in the pools already stays as it is when something is appended.
proof fn lemma_node_stays(m: VolumeModel, n: VolumeModel, s: int)
    requires
        m.pools_ok(),
        0 <= s < m.entries.len(),
        s < n.entries.len(),
        n.entries[s] == m.entries[s],
        m.names.is_prefix_of(n.names),
        m.pys.is_prefix_of(n.pys),
    ensures
        n.node(s) == m.node(s),
{
    let e = m.entries[s];
    assert(m.name_in_pool(e));
    assert(n.name_of(e) =~= m.name_of(e));
    if e.py_len > 0 {
        assert(n.py_of(e) =~= m.py_of(e));
    }
}

/// What is appended to the pools is what the new entry stands for.
proof fn lemma_new_node(
    m: VolumeModel,
    n: VolumeModel,
    slot: int,
    parent: u64,
    text: Seq<u16>,
    py: Option<Seq<u16>>,
    flags: u16,
)
    requires
        m.addressable(),
        text.len() <= u16::MAX,
        py matches Some(p) ==> 0 < p.len() <= u16::MAX,
        0 <= slot < n.entries.len(),
        n.entries[slot] == m.entry_at_end(parent, text, py, flags),
        n.names == m.names + text,
        n.pys == match py {
            Some(p) => m.pys + p,
            None => m.pys,
        },
    ensures
        n.node(slot).name == text,
        n.node(slot).flags == n.entries[slot].flags,
        n.node(slot).py == match py {
            Some(p) => p,
            None => seq![],
        },
        n.entries[slot].py_len == n.node(slot).py.len(),
        n.entries[slot].py_len == 0 ==> n.entries[slot].py_off == 0,
{
    let e = n.entries[slot];
    assert(n.name_of(e) =~= text);
    if py is Some {
        assert(n.py_of(e) =~= py->0);
    }
}

proof fn lemma_upsert_spelled(m: VolumeModel, frn: u64, parent: u64, name: Seq<u16>, is_dir: bool)
    requires
        m.wf(),
        m.addressable(),
        all_spelled(m),
        can_perform(m, Op::Upsert { frn, parent, name, is_dir }),
    ensures
        all_spelled(performed(m, Op::Upsert { frn, parent, name, is_dir })),
{
    let py = py::name_spelling(name);
    let n = m.upsert(frn, parent, name, is_dir, py);
    if !m.shadowed(frn, name) {
        let slot = if m.frn_map.contains_key(frn) {
            m.frn_map[frn] as int
        } else {
            m.entries.len() as int
        };
        laws::law_ntfs_entry_flags(m, frn, parent, name, is_dir, py);
        lemma_new_node(m, n, slot, parent, name, py, m.ntfs_flags(frn, parent, name, is_dir));
        assert(rightly_spelled(n.node(slot)));
        assert forall|s: int| #![trigger n.entries[s]] 0 <= s < n.entries.len() implies
            rightly_spelled(n.node(s)) && (n.entries[s].py_len == 0 ==> n.entries[s].py_off == 0) by {
            if s != slot {
                assert(n.entries[s] == m.entries[s]);
                lemma_node_stays(m, n, s);
            }
        }
    }
}

proof fn lemma_push_path_spelled(m: VolumeModel, path: Seq<u16>, is_dir: bool)
    requires
        m.wf(),
        m.addressable(),
        all_spelled(m),
        can_perform(m, Op::PushPath { path, is_dir }),
    ensures
        all_spelled(performed(m, Op::PushPath { path, is_dir })),
{
    let py = py::name_spelling(model::file_part(path));
    let n = m.push_path(path, is_dir, py);
    let slot = m.entries.len() as int;
    laws::law_path_entry_flags(m, path, is_dir, py);
    assert(n.entries.last() == n.entries[slot]);
    lemma_new_node(m, n, slot, 0, path, py, types::flag_if(FLAG_IS_PATH, FLAG_IS_DIR, is_dir));
    assert(known_name(n.node(slot)) == model::file_part(path));
    assert(rightly_spelled(n.node(slot)));
    assert forall|s: int| #![trigger n.entries[s]] 0 <= s < n.entries.len() implies rightly_spelled(
        n.node(s),
    ) && (n.entries[s].py_len == 0 ==> n.entries[s].py_off == 0) by {
        if s != slot {
            assert(n.entries[s] == m.entries[s]);
            lemma_node_stays(m, n, s);
        }
    }
}

proof fn lemma_compact_spelled(m: VolumeModel)
    requires
        m.pools_ok(),
        model::names_total(m.entries) <= m.names.len(),
        model::pys_total(m.entries) <= m.pys.len(),
        m.addressable(),
        all_spelled(m),
    ensures
        all_spelled(m.compact()),
{
    let c = m.compact();
    laws::law_compact_nodes(m);
    assert forall|s: int| #![trigger c.entries[s]] 0 <= s < c.entries.len() implies rightly_spelled(
        c.node(s),
    ) && (c.entries[s].py_len == 0 ==> c.entries[s].py_off == 0) by {
        assert(c.node(s) == m.node(s));
        assert(c.entries[s] == m.packed_entry(s));
        assert(m.entries[s].py_len == 0 ==> m.entries[s].py_off == 0);
    }
}

proof fn lemma_remove_spelled(m: VolumeModel, frn: u64)
    requires
        m.wf(),
        m.addressable(),
        all_spelled(m),
    ensures
        all_spelled(m.remove(frn)),
{
    if m.frn_map.contains_key(frn) {
        let t = m.take_out(frn);
        let slot = m.frn_map[frn] as int;
        let last = m.entries.len() - 1;
        laws::lemma_take_out(m, frn);
        assert forall|s: int| #![trigger t.entries[s]] 0 <= s < t.entries.len() implies
            rightly_spelled(t.node(s)) && (t.entries[s].py_len == 0 ==> t.entries[s].py_off == 0) by {
            let from = if s == slot {
                last
            } else {
                s
            };
            assert(t.entries[s] == m.entries[from]);
            assert(t.node(s) == m.node(from));
        }
        if t.deleted * 4 > t.entries.len() {
            lemma_compact_spelled(t);
        }
    }
}

proof fn lemma_mark_spelled(m: VolumeModel, paths: Seq<Seq<Seq<char>>>)
    requires
        all_spelled(m),
    ensures
        all_spelled(m.mark_start_menu(paths)),
{
    let n = m.mark_start_menu(paths);
    assert forall|s: int| #![trigger n.entries[s]] 0 <= s < n.entries.len() implies rightly_spelled(
        n.node(s),
    ) && (n.entries[s].py_len == 0 ==> n.entries[s].py_off == 0) by {
        let e = m.entries[s];
        laws::lemma_flag_bits(e.flags);
        assert(n.name_of(n.entries[s]) == m.name_of(e));
        assert(n.py_of(n.entries[s]) == m.py_of(e));
        assert(known_name(n.node(s)) == known_name(m.node(s)));
        assert(rightly_spelled(m.node(s)));
    }
}

/// Every operation keeps the index in order.
pub proof fn law_operation_keeps_order(m: VolumeModel, op: Op)
    requires
        in_order(m),
        can_perform(m, op),
    ensures
        in_order(performed(m, op)),
{
    match op {
        Op::Upsert { frn, parent, name, is_dir } => {
            laws::lemma_upsert_inv(m, frn, parent, name, is_dir, py::name_spelling(name));
            lemma_upsert_spelled(m, frn, parent, name, is_dir);
        },
        Op::PushPath { path, is_dir } => {
            laws::lemma_push_path_inv(
                m,
                path,
                is_dir,
                py::name_spelling(model::file_part(path)),
            );
            lemma_push_path_spelled(m, path, is_dir);
        },
        Op::Remove { frn } => {
            laws::lemma_remove_wf(m, frn);
            lemma_remove_spelled(m, frn);
            if m.frn_map.contains_key(frn) {
                laws::lemma_remove_sizes(m, frn);
            }
        },
        Op::Compact => {
            assert(laws::frns_distinct(m.frns));
            laws::lemma_compact_wf(m);
            laws::lemma_compact_sizes(m);
            lemma_compact_spelled(m);
        },
        Op::MarkStartMenu { paths } => {
            laws::lemma_mark_keeps(m, paths);
            lemma_mark_spelled(m, paths);
        },
    }
}

/// In an index in order, file numbers and slots belong to each other one to one, the name and the
/// spelling of every entry lie in the pools, and an entry is flagged as Chinese exactly where it has
/// a spelling, which is exactly where its name has one.
pub proof fn law_index_in_order(m: VolumeModel)
    requires
        in_order(m),
    ensures
        m.frns.len() == m.entries.len(),
        forall|f: u64, s: int| #![trigger m.frn_map.contains_key(f), m.frns[s]]
            0 <= s < m.frns.len() ==> (m.frn_map.contains_key(f) && m.frn_map[f] == s <==> f != 0
                && m.frns[s] == f),
        forall|s: int| #![trigger m.entries[s]]
            0 <= s < m.entries.len() ==> {
                let e = m.entries[s];
                &&& e.name_off + e.name_len <= m.names.len()
                &&& e.py_off + e.py_len <= m.pys.len()
                &&& types::has_flag(e.flags, FLAG_IS_CJK) == (e.py_len > 0)
                &&& types::has_flag(e.flags, FLAG_IS_CJK) == (py::name_spelling(
                    known_name(m.node(s)),
                ) is Some)
            },
{
    assert forall|s: int| #![trigger m.entries[s]] 0 <= s < m.entries.len() implies {
        let e = m.entries[s];
        &&& e.name_off + e.name_len <= m.names.len()
        &&& e.py_off + e.py_len <= m.pys.len()
        &&& types::has_flag(e.flags, FLAG_IS_CJK) == (e.py_len > 0)
        &&& types::has_flag(e.flags, FLAG_IS_CJK) == (py::name_spelling(
            known_name(m.node(s)),
        ) is Some)
    } by {
        let e = m.entries[s];
        assert(m.name_in_pool(e));
        assert(rightly_spelled(m.node(s)));
        if e.py_len > 0 {
            assert(m.py_of(e).len() == e.py_len);
        }
    }
}

/// An index that was reached from an empty one by any operations is in order. What is put into it
/// has to fit, as [`can_perform`] says; names that are short enough do.
pub proof fn law_reached_index_is_in_order(letter: char, is_ntfs: bool, ops: Seq<Op>)
    requires
        can_run(VolumeModel::empty(letter, is_ntfs), ops),
    ensures
        in_order(after(VolumeModel::empty(letter, is_ntfs), ops)),
    decreases ops.len(),
{
    if ops.len() > 0 {
        let start = VolumeModel::empty(letter, is_ntfs);
        law_reached_index_is_in_order(letter, is_ntfs, ops.drop_last());
        law_operation_keeps_order(after(start, ops.drop_last()), ops.last());
    }
}

} // verus!
