//! What the operations on a volume's index keep and change, as laws over its model.

use vstd::prelude::*;

use crate::fx;
use crate::model;
use crate::model::{Node, VolumeModel, MAX_DEPTH, ROOT_FRN};
use crate::text;
use crate::types;
use crate::types::{Entry, FLAG_IS_CJK, FLAG_IS_DIR, FLAG_IS_PATH, FLAG_IS_SYSTEM, FLAG_START_MENU};

verus! {

proof fn lemma_totals_update(entries: Seq<Entry>, i: int, e: Entry)
    requires
        0 <= i < entries.len(),
    ensures
        model::names_total(entries.update(i, e)) == model::names_total(entries)
            - entries[i].name_len + e.name_len,
        model::pys_total(entries.update(i, e)) == model::pys_total(entries) - entries[i].py_len
            + e.py_len,
    decreases entries.len(),
{
    let new = entries.update(i, e);
    if i == entries.len() - 1 {
        assert(new.drop_last() == entries.drop_last());
    } else {
        assert(new.drop_last() == entries.drop_last().update(i, e));
        lemma_totals_update(entries.drop_last(), i, e);
    }
}

proof fn lemma_totals_push(entries: Seq<Entry>, e: Entry)
    ensures
        model::names_total(entries.push(e)) == model::names_total(entries) + e.name_len,
        model::pys_total(entries.push(e)) == model::pys_total(entries) + e.py_len,
{
    assert(entries.push(e).drop_last() == entries);
}

/// Inserting or updating an entry keeps the invariant.
pub proof fn lemma_upsert_inv(
    m: VolumeModel,
    frn: u64,
    parent: u64,
    name: Seq<u16>,
    is_dir: bool,
    py: Option<Seq<u16>>,
)
    requires
        m.inv(),
        m.frn_map.contains_key(frn) || m.entries.len() < u32::MAX,
    ensures
        m.upsert(frn, parent, name, is_dir, py).inv(),
        m.wf() && frn != 0 ==> m.upsert(frn, parent, name, is_dir, py).wf(),
{
    let n = m.upsert(frn, parent, name, is_dir, py);
    let e = m.entry_at_end(parent, name, py, m.ntfs_flags(frn, parent, name, is_dir));
    if !m.shadowed(frn, name) {
        assert(n.name_in_pool(e));
        assert(e.py_len > 0 ==> n.py_in_pool(e));
        if m.frn_map.contains_key(frn) {
            lemma_totals_update(m.entries, m.frn_map[frn] as int, e);
            assert(forall|i: int|
                0 <= i < n.entries.len() && i != m.frn_map[frn] ==> n.entries[i] == m.entries[i]);
        } else {
            lemma_totals_push(m.entries, e);
            assert(forall|i: int|
                0 <= i < m.entries.len() ==> n.entries[i] == m.entries[i]);
            assert(forall|s: int| 0 <= s < m.frns.len() ==> n.frns[s] == m.frns[s]);
        }
    }
}

/// Adding a path entry keeps the invariant.
pub proof fn lemma_push_path_inv(
    m: VolumeModel,
    path: Seq<u16>,
    is_dir: bool,
    py: Option<Seq<u16>>,
)
    requires
        m.inv(),
        m.entries.len() < u32::MAX,
    ensures
        m.push_path(path, is_dir, py).inv(),
        m.wf() ==> m.push_path(path, is_dir, py).wf(),
{
    let n = m.push_path(path, is_dir, py);
    let e = n.entries.last();
    assert(n.name_in_pool(e));
    assert(e.py_len > 0 ==> n.py_in_pool(e));
    lemma_totals_push(m.entries, e);
    assert(forall|i: int| 0 <= i < m.entries.len() ==> n.entries[i] == m.entries[i]);
    assert(forall|s: int| 0 <= s < m.frns.len() ==> n.frns[s] == m.frns[s]);
}

proof fn lemma_packed_len(m: VolumeModel, n: int)
    requires
        m.pools_ok(),
        0 <= n <= m.entries.len(),
    ensures
        m.packed_names(n).len() == model::names_total(m.entries.take(n)),
        m.packed_pys(n).len() == model::pys_total(m.entries.take(n)),
    decreases n,
{
    if n > 0 {
        lemma_packed_len(m, n - 1);
        assert(m.entries.take(n).drop_last() == m.entries.take(n - 1));
        let e = m.entries[n - 1];
        assert(m.name_in_pool(e));
    }
}

proof fn lemma_packed_grows(m: VolumeModel, i: int, n: int)
    requires
        m.pools_ok(),
        0 <= i <= n <= m.entries.len(),
    ensures
        m.packed_names(i).len() <= m.packed_names(n).len(),
        m.packed_pys(i).len() <= m.packed_pys(n).len(),
        m.packed_names(n).take(m.packed_names(i).len() as int) == m.packed_names(i),
        m.packed_pys(n).take(m.packed_pys(i).len() as int) == m.packed_pys(i),
    decreases n,
{
    if i < n {
        lemma_packed_grows(m, i, n - 1);
        assert(m.packed_names(n).take(m.packed_names(i).len() as int) =~= m.packed_names(
            n - 1,
        ).take(m.packed_names(i).len() as int));
        assert(m.packed_pys(n).take(m.packed_pys(i).len() as int) =~= m.packed_pys(n - 1).take(
            m.packed_pys(i).len() as int,
        ));
    } else {
        assert(m.packed_names(n).take(m.packed_names(i).len() as int) =~= m.packed_names(i));
        assert(m.packed_pys(n).take(m.packed_pys(i).len() as int) =~= m.packed_pys(i));
    }
}

proof fn lemma_packed_text(m: VolumeModel, i: int)
    requires
        m.pools_ok(),
        0 <= i < m.entries.len(),
    ensures
        ({
            let e = m.entries[i];
            let names = m.packed_names(m.entries.len() as int);
            let pys = m.packed_pys(m.entries.len() as int);
            let a = m.packed_names(i).len() as int;
            let b = m.packed_pys(i).len() as int;
            &&& a + e.name_len <= names.len()
            &&& names.subrange(a, a + e.name_len) == m.name_of(e)
            &&& e.py_len > 0 ==> b + e.py_len <= pys.len() && pys.subrange(b, b + e.py_len)
                == m.py_of(e)
        }),
{
    let n = m.entries.len() as int;
    let e = m.entries[i];
    assert(m.name_in_pool(e));
    lemma_packed_grows(m, i + 1, n);
    lemma_packed_grows(m, i, i + 1);
    let names = m.packed_names(n);
    let pys = m.packed_pys(n);
    let a = m.packed_names(i).len() as int;
    let b = m.packed_pys(i).len() as int;
    assert(m.packed_names(i + 1).len() == a + e.name_len);
    assert(names.subrange(a, a + e.name_len) =~= names.take(
        m.packed_names(i + 1).len() as int,
    ).subrange(a, a + e.name_len));
    assert(m.packed_names(i + 1).subrange(a, a + e.name_len) =~= m.name_of(e));
    if e.py_len > 0 {
        assert(m.packed_pys(i + 1).len() == b + e.py_len);
        assert(pys.subrange(b, b + e.py_len) =~= pys.take(
            m.packed_pys(i + 1).len() as int,
        ).subrange(b, b + e.py_len));
        assert(m.packed_pys(i + 1).subrange(b, b + e.py_len) =~= m.py_of(e));
    }
}

/// The map made from a list of file reference numbers: its keys are the non-zero ones, each mapped
/// to a slot that holds it, and to the only one where it occurs once.
pub proof fn lemma_slot_map(frns: Seq<u64>)
    requires
        frns.len() <= u32::MAX,
    ensures
        forall|f: u64| #[trigger]
            model::slot_map(frns).contains_key(f) ==> f != 0 && model::slot_map(frns)[f]
                < frns.len() && frns[model::slot_map(frns)[f] as int] == f,
        forall|s: int| #![trigger frns[s]]
            0 <= s < frns.len() && frns[s] != 0 ==> model::slot_map(frns).contains_key(frns[s]),
    decreases frns.len(),
{
    if frns.len() > 0 {
        let rest = frns.drop_last();
        lemma_slot_map(rest);
        assert forall|f: u64| #[trigger] model::slot_map(frns).contains_key(f) implies f != 0
            && model::slot_map(frns)[f] < frns.len() && frns[model::slot_map(frns)[f] as int]
            == f by {
            if f == frns.last() && frns.last() != 0 {
            } else {
                assert(model::slot_map(rest).contains_key(f));
                assert(rest[model::slot_map(rest)[f] as int] == f);
            }
        }
        assert forall|s: int| #![trigger frns[s]] 0 <= s < frns.len() && frns[s] != 0 implies
            model::slot_map(frns).contains_key(frns[s]) by {
            if s < frns.len() - 1 {
                assert(rest[s] == frns[s]);
            }
        }
    }
}

/// Non-zero file reference numbers occur once.
pub open spec fn frns_distinct(frns: Seq<u64>) -> bool {
    forall|a: int, b: int| #![trigger frns[a], frns[b]]
        0 <= a < frns.len() && 0 <= b < frns.len() && frns[a] == frns[b] && frns[a] != 0 ==> a == b
}

/// Packing yields a well-formed index whose map holds every non-zero number.
pub proof fn lemma_compact_wf(m: VolumeModel)
    requires
        m.pools_ok(),
        m.frns.len() == m.entries.len(),
        frns_distinct(m.frns),
    ensures
        m.compact().wf(),
{
    let c = m.compact();
    let n = m.entries.len() as int;
    lemma_slot_map(m.frns);
    assert(m.entries.take(n) == m.entries);
    lemma_packed_len(m, n);
    assert forall|i: int| #![trigger c.entries[i]] 0 <= i < c.entries.len() implies c.name_in_pool(
        c.entries[i],
    ) && (c.entries[i].py_len > 0 ==> c.py_in_pool(c.entries[i])) by {
        lemma_packed_text(m, i);
        assert(c.entries[i] == m.packed_entry(i));
    }
    lemma_totals_packed(m, n);
    assert(c.entries.take(n) == c.entries);
}

proof fn lemma_totals_packed(m: VolumeModel, n: int)
    requires
        0 <= n <= m.entries.len(),
    ensures
        model::names_total(m.compact().entries.take(n)) == model::names_total(m.entries.take(n)),
        model::pys_total(m.compact().entries.take(n)) == model::pys_total(m.entries.take(n)),
    decreases n,
{
    if n > 0 {
        lemma_totals_packed(m, n - 1);
        let a = m.compact().entries.take(n);
        let b = m.entries.take(n);
        assert(a.drop_last() == m.compact().entries.take(n - 1));
        assert(b.drop_last() == m.entries.take(n - 1));
        assert(a.last() == m.packed_entry(n - 1));
    }
}

/// What is left when an entry was taken out is in order but for the number of removals.
pub proof fn lemma_take_out(m: VolumeModel, frn: u64)
    requires
        m.inv(),
        m.frn_map.contains_key(frn),
        m.frn_map.contains_key(0) ==> frn == 0,
    ensures
        m.take_out(frn).pools_ok(),
        m.take_out(frn).slots_ok(),
        model::names_total(m.take_out(frn).entries) <= m.names.len(),
        model::pys_total(m.take_out(frn).entries) <= m.pys.len(),
        !m.take_out(frn).frn_map.contains_key(0),
        frns_distinct(m.take_out(frn).frns),
{
    let t = m.take_out(frn);
    let slot = m.frn_map[frn] as int;
    let last = m.entries.len() - 1;
    let moved = m.entries.update(slot, m.entries[last]);
    lemma_totals_update(m.entries, slot, m.entries[last]);
    assert(moved.drop_last().push(moved.last()) == moved);
    lemma_totals_push(moved.drop_last(), moved.last());
    assert(moved.last() == m.entries[last]);
    assert forall|i: int| #![trigger t.entries[i]] 0 <= i < t.entries.len() implies t.name_in_pool(
        t.entries[i],
    ) && (t.entries[i].py_len > 0 ==> t.py_in_pool(t.entries[i])) by {
        if i == slot {
            assert(t.entries[i] == m.entries[last]);
        } else {
            assert(t.entries[i] == m.entries[i]);
        }
    }
    assert forall|f: u64| #[trigger] t.frn_map.contains_key(f) implies t.frn_map[f] < t.frns.len()
        && t.frns[t.frn_map[f] as int] == f && f != 0 by {
        if slot != last && m.frns[last] != 0 && f == m.frns[last] {
            assert(t.frns[slot] == f);
        } else {
            assert(m.frn_map.contains_key(f) && f != frn);
            let s = m.frn_map[f] as int;
            assert(m.frns[s] == f);
            assert(s != slot);
            if s == last {
                assert(m.frns[last] == f);
            } else {
                assert(t.frns[s] == m.frns[s]);
            }
        }
    }
    assert forall|s: int| #![trigger t.frns[s]] 0 <= s < t.frns.len() && t.frns[s] != 0 implies
        t.frn_map.contains_key(t.frns[s]) && t.frn_map[t.frns[s]] == s by {
        let f = t.frns[s];
        if s == slot {
            assert(f == m.frns[last]);
        } else {
            assert(f == m.frns[s]);
            assert(m.frn_map[f] == s);
            assert(m.frns[last] == f ==> m.frn_map[f] == last);
            assert(m.frns[slot] == frn);
        }
    }
}

/// An index from which an entry was taken out has its names and spellings in its pools.
pub proof fn lemma_take_out_pools(m: VolumeModel, frn: u64)
    requires
        m.inv(),
        m.frn_map.contains_key(frn),
    ensures
        m.take_out(frn).pools_ok(),
        m.take_out(frn).frns.len() == m.take_out(frn).entries.len(),
{
    let t = m.take_out(frn);
    let slot = m.frn_map[frn] as int;
    assert forall|i: int| #![trigger t.entries[i]] 0 <= i < t.entries.len() implies t.name_in_pool(
        t.entries[i],
    ) && (t.entries[i].py_len > 0 ==> t.py_in_pool(t.entries[i])) by {
        if i == slot {
            assert(t.entries[i] == m.entries[m.entries.len() - 1]);
        } else {
            assert(t.entries[i] == m.entries[i]);
        }
    }
}

/// The removal of a file keeps the index well-formed.
pub proof fn lemma_remove_wf(m: VolumeModel, frn: u64)
    requires
        m.inv(),
        m.frn_map.contains_key(0) ==> frn == 0,
    ensures
        m.remove(frn).wf(),
{
    if m.frn_map.contains_key(frn) {
        lemma_take_out(m, frn);
        if m.take_out(frn).deleted * 4 > m.take_out(frn).entries.len() {
            lemma_compact_wf(m.take_out(frn));
        }
    }
}

/// Packing lets no pool grow.
pub proof fn lemma_compact_sizes(m: VolumeModel)
    requires
        m.inv(),
    ensures
        m.compact().names.len() <= m.names.len(),
        m.compact().pys.len() <= m.pys.len(),
{
    let n = m.entries.len() as int;
    lemma_packed_len(m, n);
    assert(m.entries.take(n) =~= m.entries);
}

/// A removal takes one entry out, and lets no pool grow.
pub proof fn lemma_remove_sizes(m: VolumeModel, frn: u64)
    requires
        m.inv(),
        m.frn_map.contains_key(frn),
    ensures
        m.remove(frn).entries.len() == m.entries.len() - 1,
        m.remove(frn).names.len() <= m.names.len(),
        m.remove(frn).pys.len() <= m.pys.len(),
{
    let t = m.take_out(frn);
    if t.deleted * 4 > t.entries.len() {
        lemma_take_out_pools(m, frn);
        let n = t.entries.len() as int;
        lemma_packed_len(t, n);
        assert(t.entries.take(n) =~= t.entries);
        let slot = m.frn_map[frn] as int;
        let moved = m.entries.update(slot, m.entries[m.entries.len() - 1]);
        lemma_totals_update(m.entries, slot, m.entries[m.entries.len() - 1]);
        assert(moved.drop_last() =~= t.entries);
        assert(moved.last() == m.entries[m.entries.len() - 1]);
    }
}

/// A removed file has no slot any more.
pub proof fn lemma_removed_key(m: VolumeModel, frn: u64)
    requires
        m.wf(),
        m.frn_map.contains_key(frn),
    ensures
        !m.remove(frn).frn_map.contains_key(frn),
{
    lemma_take_out(m, frn);
    let t = m.take_out(frn);
    let slot = m.frn_map[frn] as int;
    let last = m.entries.len() - 1;
    if slot != last && m.frns[last] == frn {
        assert(m.frn_map[m.frns[last]] == last);
    }
    if t.deleted * 4 > t.entries.len() {
        lemma_slot_map(t.frns);
        if model::slot_map(t.frns).contains_key(frn) {
            let s = model::slot_map(t.frns)[frn] as int;
            assert(t.frns[s] == frn);
            assert(t.frn_map.contains_key(t.frns[s]));
        }
    }
}

/// The non-zero file reference numbers of a list.
pub open spec fn non_zero(frns: Seq<u64>) -> Seq<u64>
    decreases frns.len(),
{
    if frns.len() == 0 {
        seq![]
    } else if frns.last() == 0 {
        non_zero(frns.drop_last())
    } else {
        non_zero(frns.drop_last()).push(frns.last())
    }
}

proof fn lemma_non_zero(frns: Seq<u64>)
    ensures
        forall|f: u64| #[trigger]
            non_zero(frns).contains(f) <==> f != 0 && frns.contains(f),
        frns_distinct(frns) ==> non_zero(frns).no_duplicates(),
    decreases frns.len(),
{
    if frns.len() > 0 {
        let rest = frns.drop_last();
        lemma_non_zero(rest);
        assert forall|f: u64| #[trigger] non_zero(frns).contains(f) <==> f != 0 && frns.contains(
            f,
        ) by {
            let all = non_zero(frns);
            if f != 0 && frns.contains(f) {
                let i = choose|i: int| 0 <= i < frns.len() && frns[i] == f;
                if i < rest.len() {
                    assert(rest[i] == f);
                    assert(non_zero(rest).contains(f));
                    let j = choose|j: int| 0 <= j < non_zero(rest).len() && non_zero(rest)[j] == f;
                    assert(all[j] == f);
                } else {
                    assert(all[all.len() - 1] == f);
                }
            }
            if all.contains(f) {
                let j = choose|j: int| 0 <= j < all.len() && all[j] == f;
                if j < non_zero(rest).len() {
                    assert(non_zero(rest)[j] == f);
                    assert(non_zero(rest).contains(f));
                    let i = choose|i: int| 0 <= i < rest.len() && rest[i] == f;
                    assert(frns[i] == f);
                } else {
                    assert(frns[frns.len() - 1] == f);
                }
            }
        }
        if frns_distinct(frns) {
            assert forall|i: int, j: int|
                0 <= i < rest.len() && 0 <= j < rest.len() && i != j && rest[i] != 0 implies rest[i]
                != rest[j] by {
                assert(frns[i] != frns[j]);
            }
            if frns.last() != 0 && non_zero(rest).contains(frns.last()) {
                let i = rest.index_of(frns.last());
                assert(frns[i] == frns[frns.len() - 1]);
            }
        }
    }
}

/// Where each non-zero file reference number has its slot in the map, the map holds no other key
/// exactly if it has as many keys as there are such numbers.
pub proof fn lemma_key_count(m: VolumeModel, n: nat)
    requires
        fx::key_count(m.frn_map, n),
        m.frns.len() <= u32::MAX,
        forall|s: int| #![trigger m.frns[s]]
            0 <= s < m.frns.len() && m.frns[s] != 0 ==> m.frn_map.contains_key(m.frns[s])
                && m.frn_map[m.frns[s]] == s,
    ensures
        n == non_zero(m.frns).len() <==> (!m.frn_map.contains_key(0) && forall|f: u64| #[trigger]
            m.frn_map.contains_key(f) ==> m.frn_map[f] < m.frns.len()
                && m.frns[m.frn_map[f] as int] == f),
{
    let keys = choose|keys: Seq<u64>|
        #![trigger keys.no_duplicates()]
        keys.no_duplicates() && keys.len() == n && keys.to_set() == m.frn_map.dom();
    let have = non_zero(m.frns);
    assert(frns_distinct(m.frns));
    lemma_non_zero(m.frns);
    keys.unique_seq_to_set();
    have.unique_seq_to_set();
    assert(have.to_set().subset_of(keys.to_set())) by {
        assert forall|f: u64| have.to_set().contains(f) implies keys.to_set().contains(f) by {
            assert(have.contains(f));
            let s = m.frns.index_of(f);
            assert(m.frns[s] == f);
        }
    }
    if n == have.len() {
        vstd::set_lib::lemma_subset_equality(have.to_set(), keys.to_set());
        assert forall|f: u64| #[trigger] m.frn_map.contains_key(f) implies f != 0 && m.frn_map[f]
            < m.frns.len() && m.frns[m.frn_map[f] as int] == f by {
            assert(keys.to_set().contains(f));
            assert(have.contains(f));
            let s = m.frns.index_of(f);
            assert(m.frns[s] == f);
        }
    }
    if !m.frn_map.contains_key(0) && forall|f: u64| #[trigger]
        m.frn_map.contains_key(f) ==> m.frn_map[f] < m.frns.len() && m.frns[m.frn_map[f] as int]
            == f {
        assert forall|f: u64| keys.to_set().contains(f) implies have.to_set().contains(f) by {
            assert(m.frn_map.contains_key(f));
            assert(m.frns.contains(f));
            assert(have.contains(f));
        }
        assert(have.to_set() =~= keys.to_set());
    }
}

/// A file reference number that joins a set leaves fewer slots outside it.
pub proof fn lemma_outside_insert(m: VolumeModel, set: Set<u64>, i: int, n: int)
    requires
        0 <= n <= m.frns.len(),
        0 <= i < m.frns.len(),
        !set.contains(m.frns[i]),
    ensures
        m.outside(set.insert(m.frns[i]), n) <= m.outside(set, n),
        i < n ==> m.outside(set.insert(m.frns[i]), n) < m.outside(set, n),
    decreases n,
{
    if n > 0 {
        lemma_outside_insert(m, set, i, n - 1);
    }
}

/// What is in a directory of a subtree belongs to the subtree.
pub proof fn lemma_subtree_step(m: VolumeModel, roots: Set<u64>, s: int)
    requires
        0 <= s < m.entries.len(),
        m.frns.len() == m.entries.len(),
        m.frns[s] != 0,
        m.subtree(roots).contains(m.entries[s].parent),
    ensures
        m.subtree(roots).contains(m.frns[s]),
{
    let depth = choose|depth: nat| m.below(roots, depth).contains(m.entries[s].parent);
    assert(m.below(roots, depth + 1).contains(m.frns[s]));
}

/// A set that holds the roots, and with a directory what is in it, holds the subtree.
pub proof fn lemma_closed_subtree(m: VolumeModel, roots: Set<u64>, set: Set<u64>)
    requires
        roots.subset_of(set),
        m.closed_below(set),
    ensures
        m.subtree(roots).subset_of(set),
{
    assert forall|f: u64| m.subtree(roots).contains(f) implies set.contains(f) by {
        let depth = choose|depth: nat| m.below(roots, depth).contains(f);
        lemma_closed_below(m, roots, set, depth);
    }
}

proof fn lemma_closed_below(m: VolumeModel, roots: Set<u64>, set: Set<u64>, depth: nat)
    requires
        roots.subset_of(set),
        m.closed_below(set),
    ensures
        m.below(roots, depth).subset_of(set),
    decreases depth,
{
    if depth > 0 {
        lemma_closed_below(m, roots, set, (depth - 1) as nat);
    }
}

proof fn lemma_totals_same(a: Seq<Entry>, b: Seq<Entry>)
    requires
        a.len() == b.len(),
        forall|i: int| #![trigger a[i]]
            0 <= i < a.len() ==> a[i].name_len == b[i].name_len && a[i].py_len == b[i].py_len,
    ensures
        model::names_total(a) == model::names_total(b),
        model::pys_total(a) == model::pys_total(b),
    decreases a.len(),
{
    if a.len() > 0 {
        assert forall|i: int| #![trigger a.drop_last()[i]] 0 <= i < a.drop_last().len() implies
            a.drop_last()[i].name_len == b.drop_last()[i].name_len && a.drop_last()[i].py_len
            == b.drop_last()[i].py_len by {
            assert(a.drop_last()[i] == a[i]);
        }
        lemma_totals_same(a.drop_last(), b.drop_last());
        assert(a[a.len() - 1].name_len == b[b.len() - 1].name_len);
    }
}

/// Marking the start menu keeps the invariant.
pub proof fn lemma_mark_keeps(m: VolumeModel, paths: Seq<Seq<Seq<char>>>)
    ensures
        m.inv() ==> m.mark_start_menu(paths).inv(),
        m.wf() ==> m.mark_start_menu(paths).wf(),
{
    let n = m.mark_start_menu(paths);
    lemma_totals_same(n.entries, m.entries);
    if m.inv() {
        assert forall|i: int| #![trigger n.entries[i]] 0 <= i < n.entries.len() implies
            n.name_in_pool(n.entries[i]) && (n.entries[i].py_len > 0 ==> n.py_in_pool(
            n.entries[i],
        )) by {
            assert(m.name_in_pool(m.entries[i]));
        }
    }
}

/// How setting a flag changes what flags are set.
pub proof fn lemma_flag_bits(f: u16)
    ensures
        0u16 & 1 == 0,
        0u16 & 2 == 0,
        0u16 & 4 == 0,
        0u16 & 8 == 0,
        0u16 & 16 == 0,
        (f | 1) & 1 != 0,
        (f | 1) & 2 == f & 2,
        (f | 1) & 4 == f & 4,
        (f | 1) & 8 == f & 8,
        (f | 1) & 16 == f & 16,
        (f | 4) & 1 == f & 1,
        (f | 4) & 2 == f & 2,
        (f | 4) & 4 != 0,
        (f | 4) & 8 == f & 8,
        (f | 4) & 16 == f & 16,
        (f | 8) & 1 == f & 1,
        (f | 8) & 2 == f & 2,
        (f | 8) & 4 == f & 4,
        (f | 8) & 8 != 0,
        (f | 8) & 16 == f & 16,
        (f | 16) & 1 == f & 1,
        (f | 16) & 2 == f & 2,
        (f | 16) & 4 == f & 4,
        (f | 16) & 8 == f & 8,
        (f | 16) & 16 != 0,
        2u16 & 1 == 0,
        2u16 & 2 != 0,
        2u16 & 4 == 0,
        2u16 & 8 == 0,
        2u16 & 16 == 0,
{
    assert(0u16 & 1 == 0 && 0u16 & 2 == 0 && 0u16 & 4 == 0 && 0u16 & 8 == 0 && 0u16 & 16 == 0
        && 2u16 & 1 == 0 && 2u16 & 2 != 0 && 2u16 & 4 == 0 && 2u16 & 8 == 0 && 2u16 & 16 == 0)
        by (bit_vector);
    assert((f | 1) & 1 != 0 && (f | 1) & 2 == f & 2 && (f | 1) & 4 == f & 4 && (f | 1) & 8 == f & 8
        && (f | 1) & 16 == f & 16) by (bit_vector);
    assert((f | 4) & 1 == f & 1 && (f | 4) & 2 == f & 2 && (f | 4) & 4 != 0 && (f | 4) & 8 == f & 8
        && (f | 4) & 16 == f & 16) by (bit_vector);
    assert((f | 8) & 1 == f & 1 && (f | 8) & 2 == f & 2 && (f | 8) & 4 == f & 4 && (f | 8) & 8 != 0
        && (f | 8) & 16 == f & 16) by (bit_vector);
    assert((f | 16) & 1 == f & 1 && (f | 16) & 2 == f & 2 && (f | 16) & 4 == f & 4 && (f | 16) & 8
        == f & 8 && (f | 16) & 16 != 0) by (bit_vector);
}

/// An NTFS entry is flagged as a directory, as a system file (`$` name), as part of the start menu
/// and as Chinese exactly where it is one, and never as a path entry.
pub proof fn law_ntfs_entry_flags(
    m: VolumeModel,
    frn: u64,
    parent: u64,
    name: Seq<u16>,
    is_dir: bool,
    py: Option<Seq<u16>>,
)
    ensures
        ({
            let e = m.entry_at_end(parent, name, py, m.ntfs_flags(frn, parent, name, is_dir));
            &&& types::has_flag(e.flags, FLAG_IS_DIR) == is_dir
            &&& types::has_flag(e.flags, FLAG_IS_SYSTEM) == (name.len() > 0 && name[0] == 0x24)
            &&& types::has_flag(e.flags, FLAG_START_MENU) == (m.start_menu.contains(parent)
                || m.start_menu.contains(frn))
            &&& types::has_flag(e.flags, FLAG_IS_CJK) == (e.py_len > 0)
            &&& !types::has_flag(e.flags, FLAG_IS_PATH)
        }),
{
    let dir = types::flag_if(0, FLAG_IS_DIR, is_dir);
    let system = types::flag_if(dir, FLAG_IS_SYSTEM, name.len() > 0 && name[0] == 0x24);
    let menu = m.ntfs_flags(frn, parent, name, is_dir);
    lemma_flag_bits(0);
    lemma_flag_bits(dir);
    lemma_flag_bits(system);
    lemma_flag_bits(menu);
}

/// Where a name is stored for a file, the entry of that file is flagged by this name alone, whatever
/// name the file had before: as a system file exactly where the name begins with `$`.
pub proof fn law_stored_name_decides_flags(
    m: VolumeModel,
    frn: u64,
    parent: u64,
    name: Seq<u16>,
    is_dir: bool,
    py: Option<Seq<u16>>,
)
    requires
        m.inv(),
        m.frn_map.contains_key(frn) || m.entries.len() < u32::MAX,
        !m.shadowed(frn, name),
    ensures
        ({
            let n = m.upsert(frn, parent, name, is_dir, py);
            let e = n.entries[n.frn_map[frn] as int];
            &&& n.frn_map.contains_key(frn)
            &&& types::has_flag(e.flags, FLAG_IS_SYSTEM) == (name.len() > 0 && name[0] == 0x24)
            &&& types::has_flag(e.flags, FLAG_IS_DIR) == is_dir
            &&& types::has_flag(e.flags, FLAG_START_MENU) == (m.start_menu.contains(parent)
                || m.start_menu.contains(frn))
        }),
{
    law_ntfs_entry_flags(m, frn, parent, name, is_dir, py);
}

/// Every entry has a file reference number, and none is a path entry.
pub open spec fn all_numbered(m: VolumeModel) -> bool {
    forall|s: int| #![trigger m.entries[s]] #![trigger m.frns[s]]
        0 <= s < m.entries.len() ==> m.frns[s] != 0 && !types::has_flag(
            m.entries[s].flags,
            FLAG_IS_PATH,
        )
}

/// An index of files with numbers stays one when a file with a number is put into it.
pub proof fn law_upsert_numbered(
    m: VolumeModel,
    frn: u64,
    parent: u64,
    name: Seq<u16>,
    is_dir: bool,
    py: Option<Seq<u16>>,
)
    requires
        m.inv(),
        all_numbered(m),
        frn != 0,
    ensures
        all_numbered(m.upsert(frn, parent, name, is_dir, py)),
{
    let n = m.upsert(frn, parent, name, is_dir, py);
    law_ntfs_entry_flags(m, frn, parent, name, is_dir, py);
    assert forall|s: int| #![trigger n.entries[s]] #![trigger n.frns[s]]
        0 <= s < n.entries.len() implies n.frns[s] != 0 && !types::has_flag(
        n.entries[s].flags,
        FLAG_IS_PATH,
    ) by {
        if s < m.entries.len() {
            assert(m.frns[s] != 0);
        }
    }
}

/// The ways up are the same where parents and names are.
pub proof fn lemma_chain_same(m: VolumeModel, n: VolumeModel, slot: int, steps: nat)
    requires
        n.frn_map == m.frn_map,
        m.entries.len() <= n.entries.len(),
        m.entries.len() == n.entries.len() || m.slots_ok(),
        0 <= slot < m.entries.len(),
        forall|s: int| #![trigger m.entries[s]]
            0 <= s < m.entries.len() ==> n.entries[s].parent == m.entries[s].parent && n.name_of(
                n.entries[s],
            ) == m.name_of(m.entries[s]),
    ensures
        n.chain(slot, steps) == m.chain(slot, steps),
    decreases steps,
{
    if steps > 0 {
        let up = m.entries[slot].parent;
        if !(up == 0 || up == ROOT_FRN || !m.frn_map.contains_key(up)) {
            let above = m.frn_map[up] as int;
            if above < m.entries.len() {
                lemma_chain_same(m, n, above, (steps - 1) as nat);
            }
        }
    }
}

/// Marking the start menu leaves all paths as they are.
pub proof fn law_mark_keeps_paths(m: VolumeModel, paths: Seq<Seq<Seq<char>>>, slot: int)
    requires
        0 <= slot < m.entries.len(),
    ensures
        m.mark_start_menu(paths).full_path(slot) == m.full_path(slot),
{
    let n = m.mark_start_menu(paths);
    lemma_flag_bits(m.entries[slot].flags);
    assert forall|s: int| #![trigger m.entries[s]] 0 <= s < m.entries.len() implies
        n.entries[s].parent == m.entries[s].parent && n.name_of(n.entries[s]) == m.name_of(
        m.entries[s],
    ) by {
        assert(n.entries[s].name_off == m.entries[s].name_off);
    }
    lemma_chain_same(m, n, slot, MAX_DEPTH as nat);
}

/// A path entry is flagged as such, as a directory and as Chinese exactly where it is one, and as
/// nothing else.
pub proof fn law_path_entry_flags(
    m: VolumeModel,
    path: Seq<u16>,
    is_dir: bool,
    py: Option<Seq<u16>>,
)
    ensures
        ({
            let e = m.push_path(path, is_dir, py).entries.last();
            &&& types::has_flag(e.flags, FLAG_IS_PATH)
            &&& types::has_flag(e.flags, FLAG_IS_DIR) == is_dir
            &&& types::has_flag(e.flags, FLAG_IS_CJK) == (e.py_len > 0)
            &&& !types::has_flag(e.flags, FLAG_IS_SYSTEM)
            &&& !types::has_flag(e.flags, FLAG_START_MENU)
        }),
{
    let f = types::flag_if(FLAG_IS_PATH, FLAG_IS_DIR, is_dir);
    lemma_flag_bits(FLAG_IS_PATH);
    lemma_flag_bits(f);
}

/// Inserting or updating a file makes it live under its new name, parent and flags and changes no
/// other file.
pub proof fn law_upsert_live(
    m: VolumeModel,
    frn: u64,
    parent: u64,
    name: Seq<u16>,
    is_dir: bool,
    py: Option<Seq<u16>>,
)
    requires
        m.inv(),
        m.addressable(),
        m.frn_map.contains_key(frn) || m.entries.len() < u32::MAX,
        name.len() <= u16::MAX,
        py matches Some(p) ==> p.len() <= u16::MAX,
        !m.shadowed(frn, name),
    ensures
        m.upsert(frn, parent, name, is_dir, py).live() == m.live().insert(
            frn,
            Node {
                parent,
                name,
                py: match py {
                    Some(p) => p,
                    None => seq![],
                },
                flags: types::flag_if(
                    m.ntfs_flags(frn, parent, name, is_dir),
                    FLAG_IS_CJK,
                    py is Some && py.unwrap().len() > 0,
                ),
            },
        ),
{
    let n = m.upsert(frn, parent, name, is_dir, py);
    let e = m.entry_at_end(parent, name, py, m.ntfs_flags(frn, parent, name, is_dir));
    let slot = if m.frn_map.contains_key(frn) {
        m.frn_map[frn] as int
    } else {
        m.entries.len() as int
    };
    assert(n.entries[slot] == e);
    assert(n.name_of(e) =~= name);
    if py is Some {
        assert(e.py_len > 0 ==> n.py_of(e) =~= py.unwrap());
        assert(e.py_len == 0 ==> py.unwrap() =~= seq![]);
    }
    let want = m.live().insert(frn, n.node(slot));
    assert(n.live().dom() =~= want.dom());
    assert forall|f: u64| f != frn && m.frn_map.contains_key(f) implies n.node(
        #[trigger] n.frn_map[f] as int,
    ) == m.node(m.frn_map[f] as int) by {
        let s = m.frn_map[f] as int;
        assert(m.frns[s] == f);
        assert(s != slot);
        let x = m.entries[s];
        assert(n.entries[s] == x);
        assert(m.name_in_pool(x));
        assert(n.name_of(x) =~= m.name_of(x));
        if x.py_len > 0 {
            assert(n.py_of(x) =~= m.py_of(x));
        }
    }
    assert(n.live() =~= want);
}

/// A short name never replaces the long name of an indexed file.
pub proof fn law_short_name_kept_out(
    m: VolumeModel,
    frn: u64,
    parent: u64,
    name: Seq<u16>,
    is_dir: bool,
    py: Option<Seq<u16>>,
)
    requires
        m.frn_map.contains_key(frn),
        model::is_short_name(name),
        !model::is_short_name(m.name_of(m.entries[m.frn_map[frn] as int])),
    ensures
        m.upsert(frn, parent, name, is_dir, py) == m,
{
}

/// Packing the pools changes no entry's name, spelling, parent or flags, and leaves the pools
/// without unused units.
pub proof fn law_compact_nodes(m: VolumeModel)
    requires
        m.pools_ok(),
        model::names_total(m.entries) <= m.names.len(),
        model::pys_total(m.entries) <= m.pys.len(),
        m.addressable(),
    ensures
        m.compact().entries.len() == m.entries.len(),
        m.compact().frns == m.frns,
        forall|s: int|
            0 <= s < m.entries.len() ==> #[trigger] m.compact().node(s) == m.node(s),
        m.compact().names.len() == model::names_total(m.entries),
        m.compact().pys.len() == model::pys_total(m.entries),
{
    let c = m.compact();
    let n = m.entries.len() as int;
    assert(m.entries.take(n) == m.entries);
    lemma_packed_len(m, n);
    assert forall|s: int| 0 <= s < m.entries.len() implies #[trigger] c.node(s) == m.node(s) by {
        lemma_packed_text(m, s);
        lemma_packed_grows(m, s, n);
        assert(c.entries[s] == m.packed_entry(s));
    }
}

/// Packing the pools changes no file.
pub proof fn law_compact_live(m: VolumeModel)
    requires
        m.wf(),
        m.addressable(),
    ensures
        m.compact().live() == m.live(),
{
    law_compact_nodes(m);
    lemma_slot_map(m.frns);
    let c = m.compact();
    assert forall|f: u64| c.frn_map.contains_key(f) == m.frn_map.contains_key(f) && (
    m.frn_map.contains_key(f) ==> c.frn_map[f] == m.frn_map[f]) by {
        if m.frn_map.contains_key(f) {
            let s = m.frn_map[f] as int;
            assert(m.frns[s] == f);
            assert(c.frn_map.contains_key(f));
            let t = c.frn_map[f] as int;
            assert(m.frns[t] == f);
        }
        if c.frn_map.contains_key(f) {
            let t = c.frn_map[f] as int;
            assert(m.frns[t] == f);
        }
    }
    assert forall|f: u64| #[trigger] m.live().contains_key(f) implies c.live()[f] == m.live()[f] by {
        let s = m.frn_map[f] as int;
        assert(c.node(s) == m.node(s));
    }
    assert(c.live() =~= m.live());
}

/// Removing a file takes it out and changes no other file, packed or not.
pub proof fn law_remove_live(m: VolumeModel, frn: u64)
    requires
        m.wf(),
        m.addressable(),
    ensures
        m.remove(frn).live() == m.live().remove(frn),
{
    if m.frn_map.contains_key(frn) {
        let t = m.take_out(frn);
        let slot = m.frn_map[frn] as int;
        let last = m.entries.len() - 1;
        lemma_take_out(m, frn);
        assert forall|f: u64| #[trigger] m.frn_map.contains_key(f) && f != frn implies
            t.frn_map.contains_key(f) && t.node(t.frn_map[f] as int) == m.node(
            m.frn_map[f] as int,
        ) by {
            let s = m.frn_map[f] as int;
            assert(m.frns[s] == f);
            assert(m.frns[slot] == frn);
            if s == last {
                assert(t.entries[slot] == m.entries[last]);
            } else {
                assert(t.frns[s] == f);
                assert(t.entries[s] == m.entries[s]);
            }
        }
        assert forall|f: u64| #[trigger] t.frn_map.contains_key(f) implies m.frn_map.contains_key(
            f,
        ) && f != frn by {
            assert(m.frns[slot] == frn);
            if slot != last && m.frns[last] != 0 && f == m.frns[last] {
                assert(m.frn_map[f] == last);
            }
        }
        assert(t.live() =~= m.live().remove(frn));
        if t.deleted * 4 > t.entries.len() {
            let u = VolumeModel { deleted: 0, ..t };
            assert(u.wf());
            assert forall|n: int| u.packed_names(n) == t.packed_names(n) && u.packed_pys(n)
                == t.packed_pys(n) by {
                lemma_packed_same(t, n);
            }
            assert(u.compact() =~= t.compact());
            assert(u.live() =~= t.live());
            law_compact_live(u);
        }
    } else {
        assert(m.live().remove(frn) =~= m.live());
    }
}

proof fn lemma_packed_same(t: VolumeModel, n: int)
    ensures
        (VolumeModel { deleted: 0, ..t }).packed_names(n) == t.packed_names(n),
        (VolumeModel { deleted: 0, ..t }).packed_pys(n) == t.packed_pys(n),
    decreases n,
{
    if n > 0 {
        lemma_packed_same(t, n - 1);
    }
}

/// The path of a file is the path of its directory extended by its name, as long as the directory
/// is fewer levels deep than paths are followed.
pub proof fn law_path_of_child(m: VolumeModel, slot: int)
    requires
        0 <= slot < m.entries.len(),
        m.entries[slot].parent != 0,
        m.entries[slot].parent != ROOT_FRN,
        m.frn_map.contains_key(m.entries[slot].parent),
        m.chain(m.frn_map[m.entries[slot].parent] as int, MAX_DEPTH as nat).len() < MAX_DEPTH,
    ensures
        m.path(slot) == model::add_component(
            m.path(m.frn_map[m.entries[slot].parent] as int),
            m.name_of(m.entries[slot]),
        ),
{
    let up = m.frn_map[m.entries[slot].parent] as int;
    lemma_chain_settled(m, up, MAX_DEPTH as nat);
    let chain = m.chain(slot, MAX_DEPTH as nat);
    assert(chain.drop_first() =~= m.chain(up, (MAX_DEPTH - 1) as nat));
}

proof fn lemma_chain_settled(m: VolumeModel, slot: int, steps: nat)
    requires
        steps > 0,
        m.chain(slot, steps).len() < steps,
    ensures
        m.chain(slot, (steps - 1) as nat) == m.chain(slot, steps),
    decreases steps,
{
    if 0 <= slot < m.entries.len() {
        let e = m.entries[slot];
        if e.parent == 0 || e.parent == ROOT_FRN || !m.frn_map.contains_key(e.parent) {
            assert(steps > 1);
        } else {
            assert(steps > 1);
            lemma_chain_settled(m, m.frn_map[e.parent] as int, (steps - 1) as nat);
        }
    }
}

/// The path of a file in the root directory, or in none that is indexed, is the drive and its name.
pub proof fn law_path_of_top_level(m: VolumeModel, slot: int)
    requires
        0 <= slot < m.entries.len(),
        m.entries[slot].parent == 0 || m.entries[slot].parent == ROOT_FRN
            || !m.frn_map.contains_key(m.entries[slot].parent),
    ensures
        m.path(slot) == seq![m.letter, ':', '\\'] + text::utf16_lossy(m.name_of(m.entries[slot])),
{
    let chain = m.chain(slot, MAX_DEPTH as nat);
    assert(chain =~= seq![m.name_of(m.entries[slot])]);
    assert(chain.drop_first() =~= seq![]);
    assert(model::drive_path(m.letter, chain.drop_first()) == seq![m.letter, ':', '\\']);
    assert(text::utf16_lossy(seq![]) =~= seq![]);
    let name = m.name_of(m.entries[slot]);
    if name.len() == 0 {
        assert(name =~= seq![]);
        assert(model::drive_path(m.letter, chain) =~= seq![m.letter, ':', '\\']
            + text::utf16_lossy(name));
    }
}

/// After the start menu directories were marked, everything below one that was found is flagged,
/// and so is whatever is put below it later.
pub proof fn law_start_menu_inherited(
    m: VolumeModel,
    paths: Seq<Seq<Seq<char>>>,
    s: int,
    frn: u64,
    parent: u64,
    name: Seq<u16>,
    is_dir: bool,
    py: Option<Seq<u16>>,
)
    requires
        0 <= s < m.entries.len(),
        m.subtree(m.found_dirs(paths)).contains(m.entries[s].parent),
        m.subtree(m.found_dirs(paths)).contains(parent),
    ensures
        types::has_flag(m.mark_start_menu(paths).entries[s].flags, FLAG_START_MENU),
        ({
            let after = m.mark_start_menu(paths);
            let e = after.entry_at_end(
                parent,
                name,
                py,
                after.ntfs_flags(frn, parent, name, is_dir),
            );
            types::has_flag(e.flags, FLAG_START_MENU)
        }),
{
    let roots = m.found_dirs(paths);
    let after = m.mark_start_menu(paths);
    assert(exists|f: u64| roots.contains(f)) by {
        let depth = choose|depth: nat| m.below(roots, depth).contains(parent);
        lemma_below_has_root(m, roots, depth, parent);
    }
    lemma_flag_bits(m.entries[s].flags);
    law_ntfs_entry_flags(after, frn, parent, name, is_dir, py);
}

proof fn lemma_below_has_root(m: VolumeModel, roots: Set<u64>, depth: nat, f: u64)
    requires
        m.below(roots, depth).contains(f),
    ensures
        exists|r: u64| roots.contains(r),
    decreases depth,
{
    if depth > 0 {
        let upper = m.below(roots, (depth - 1) as nat);
        if upper.contains(f) {
            lemma_below_has_root(m, roots, (depth - 1) as nat, f);
        } else {
            let s = choose|s: int| #![trigger m.frns[s]]
                0 <= s < m.entries.len() && m.frns[s] == f && upper.contains(m.entries[s].parent);
            lemma_below_has_root(m, roots, (depth - 1) as nat, m.entries[s].parent);
        }
    }
}

/// Every entry with a pinyin spelling carries the flag on Chinese characters.
pub open spec fn cjk_flagged(m: VolumeModel) -> bool {
    forall|i: int| #![trigger m.entries[i]]
        0 <= i < m.entries.len() && m.entries[i].py_len > 0 ==> m.entries[i].flags | FLAG_IS_CJK
            == m.entries[i].flags
}

/// Every operation on an index keeps the flag on Chinese characters in line with the spellings.
pub proof fn law_cjk_flag_kept(
    m: VolumeModel,
    frn: u64,
    parent: u64,
    name: Seq<u16>,
    is_dir: bool,
    py: Option<Seq<u16>>,
    paths: Seq<Seq<Seq<char>>>,
)
    requires
        m.inv(),
        cjk_flagged(m),
    ensures
        cjk_flagged(m.upsert(frn, parent, name, is_dir, py)),
        cjk_flagged(m.push_path(name, is_dir, py)),
        cjk_flagged(m.remove(frn)),
        cjk_flagged(m.compact()),
        cjk_flagged(m.mark_start_menu(paths)),
{
    assert(forall|f: u16| #![trigger f | 16u16] (f | 16u16) | 16u16 == f | 16u16) by (bit_vector);
    assert(forall|f: u16|
        #![trigger f | 8u16]
        f | 16u16 == f ==> (f | 8u16) | 16u16 == f | 8u16) by (bit_vector);
    lemma_compact_flags(m);
    let marked = m.mark_start_menu(paths);
    assert forall|i: int| #![trigger marked.entries[i]]
        0 <= i < marked.entries.len() && marked.entries[i].py_len > 0 implies marked.entries[i].flags
        | FLAG_IS_CJK == marked.entries[i].flags by {
        assert(m.entries[i].flags | FLAG_IS_CJK == m.entries[i].flags);
    }
    if m.frn_map.contains_key(frn) {
        let t = m.take_out(frn);
        let slot = m.frn_map[frn] as int;
        assert forall|i: int| #![trigger t.entries[i]]
            0 <= i < t.entries.len() && t.entries[i].py_len > 0 implies t.entries[i].flags
            | FLAG_IS_CJK == t.entries[i].flags by {
            if i == slot {
                assert(t.entries[i] == m.entries[m.entries.len() - 1]);
            } else {
                assert(t.entries[i] == m.entries[i]);
            }
        }
        lemma_compact_flags(t);
    }
    let put = m.upsert(frn, parent, name, is_dir, py);
    assert forall|i: int| #![trigger put.entries[i]]
        0 <= i < put.entries.len() && put.entries[i].py_len > 0 implies put.entries[i].flags
        | FLAG_IS_CJK == put.entries[i].flags by {
        let e = m.entry_at_end(parent, name, py, m.ntfs_flags(frn, parent, name, is_dir));
        if put.entries[i] != e {
            assert(put.entries[i] == m.entries[i]);
        }
    }
    let path = m.push_path(name, is_dir, py);
    assert forall|i: int| #![trigger path.entries[i]]
        0 <= i < path.entries.len() && path.entries[i].py_len > 0 implies path.entries[i].flags
        | FLAG_IS_CJK == path.entries[i].flags by {
        if i < m.entries.len() {
            assert(path.entries[i] == m.entries[i]);
        }
    }
}

proof fn lemma_compact_flags(m: VolumeModel)
    requires
        cjk_flagged(m),
    ensures
        cjk_flagged(m.compact()),
{
    let c = m.compact();
    assert forall|i: int| #![trigger c.entries[i]]
        0 <= i < c.entries.len() && c.entries[i].py_len > 0 implies c.entries[i].flags | FLAG_IS_CJK
        == c.entries[i].flags by {
        assert(c.entries[i] == m.packed_entry(i));
        assert(m.entries[i].flags | FLAG_IS_CJK == m.entries[i].flags);
    }
}

/// An entry carries the flag on Chinese characters exactly where it has a pinyin spelling.
pub open spec fn cjk_exact(m: VolumeModel) -> bool {
    forall|i: int| #![trigger m.entries[i]]
        0 <= i < m.entries.len() ==> types::has_flag(m.entries[i].flags, FLAG_IS_CJK) == (
        m.entries[i].py_len > 0)
}

proof fn lemma_compact_exact(m: VolumeModel)
    requires
        cjk_exact(m),
    ensures
        cjk_exact(m.compact()),
{
    let c = m.compact();
    assert forall|i: int| #![trigger c.entries[i]] 0 <= i < c.entries.len() implies types::has_flag(
        c.entries[i].flags,
        FLAG_IS_CJK,
    ) == (c.entries[i].py_len > 0) by {
        assert(c.entries[i] == m.packed_entry(i));
        assert(types::has_flag(m.entries[i].flags, FLAG_IS_CJK) == (m.entries[i].py_len > 0));
    }
}

/// Every operation on an index keeps the flag on Chinese characters exactly where there is a
/// spelling.
pub proof fn law_cjk_flag_is_exact(
    m: VolumeModel,
    frn: u64,
    parent: u64,
    name: Seq<u16>,
    is_dir: bool,
    py: Option<Seq<u16>>,
    paths: Seq<Seq<Seq<char>>>,
)
    requires
        m.inv(),
        cjk_exact(m),
    ensures
        cjk_exact(m.upsert(frn, parent, name, is_dir, py)),
        cjk_exact(m.push_path(name, is_dir, py)),
        cjk_exact(m.remove(frn)),
        cjk_exact(m.compact()),
        cjk_exact(m.mark_start_menu(paths)),
{
    lemma_compact_exact(m);
    let marked = m.mark_start_menu(paths);
    assert forall|i: int| #![trigger marked.entries[i]] 0 <= i < marked.entries.len() implies
        types::has_flag(marked.entries[i].flags, FLAG_IS_CJK) == (marked.entries[i].py_len > 0) by {
        lemma_flag_bits(m.entries[i].flags);
    }
    if m.frn_map.contains_key(frn) {
        let t = m.take_out(frn);
        let slot = m.frn_map[frn] as int;
        assert forall|i: int| #![trigger t.entries[i]] 0 <= i < t.entries.len() implies
            types::has_flag(t.entries[i].flags, FLAG_IS_CJK) == (t.entries[i].py_len > 0) by {
            if i == slot {
                assert(t.entries[i] == m.entries[m.entries.len() - 1]);
            } else {
                assert(t.entries[i] == m.entries[i]);
            }
        }
        lemma_compact_exact(t);
    }
    let put = m.upsert(frn, parent, name, is_dir, py);
    assert forall|i: int| #![trigger put.entries[i]] 0 <= i < put.entries.len() implies
        types::has_flag(put.entries[i].flags, FLAG_IS_CJK) == (put.entries[i].py_len > 0) by {
        law_ntfs_entry_flags(m, frn, parent, name, is_dir, py);
        let e = m.entry_at_end(parent, name, py, m.ntfs_flags(frn, parent, name, is_dir));
        if put.entries[i] != e {
            assert(put.entries[i] == m.entries[i]);
        }
    }
    let path = m.push_path(name, is_dir, py);
    assert forall|i: int| #![trigger path.entries[i]] 0 <= i < path.entries.len() implies
        types::has_flag(path.entries[i].flags, FLAG_IS_CJK) == (path.entries[i].py_len > 0) by {
        law_path_entry_flags(m, name, is_dir, py);
        if i < m.entries.len() {
            assert(path.entries[i] == m.entries[i]);
        }
    }
}

} // verus!
