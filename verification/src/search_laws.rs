//! What holds of matching and of search as a whole.

use vstd::prelude::*;

use crate::matcher;
use crate::matcher::{SearchOptions, SearchResult};
use crate::model::VolumeModel;
use crate::py;
use crate::text;
use crate::topk;
use crate::topk::Cand;
use crate::types::Entry;

verus! {

proof fn lemma_best_place_below(name: Seq<u16>, q: Seq<u16>, n: int) -> (best: int)
    requires
        exists|i: int| 0 <= i < n && matcher::occurs_at(name, q, i),
    ensures
        0 <= best < n,
        matcher::occurs_at(name, q, best),
        forall|j: int| #![trigger matcher::occurs_at(name, q, j)]
            j < n && matcher::occurs_at(name, q, j) ==> matcher::place_score(name, j)
                < matcher::place_score(name, best) || matcher::place_score(name, j)
                == matcher::place_score(name, best) && best <= j,
    decreases n,
{
    let last = n - 1;
    if exists|i: int| 0 <= i < last && matcher::occurs_at(name, q, i) {
        let best = lemma_best_place_below(name, q, last);
        if matcher::occurs_at(name, q, last) && matcher::place_score(name, last)
            > matcher::place_score(name, best) {
            last
        } else {
            best
        }
    } else {
        assert(matcher::occurs_at(name, q, last));
        last
    }
}

/// A query is hit as a part of a name exactly if it is not empty and stands somewhere in it.
pub proof fn law_name_hit_iff_part(name: Seq<u16>, q: Seq<u16>)
    ensures
        matcher::name_hit(name, q) is Some <==> q.len() > 0 && exists|i: int|
            matcher::occurs_at(name, q, i),
{
    if q.len() > 0 && exists|i: int| matcher::occurs_at(name, q, i) {
        let i = choose|i: int| matcher::occurs_at(name, q, i);
        let best = lemma_best_place_below(name, q, name.len() as int + 1);
        assert(matcher::is_best_place(name, q, best));
    }
    if matcher::name_hit(name, q) is Some {
        let i = choose|i: int| matcher::is_best_place(name, q, i);
        assert(matcher::occurs_at(name, q, i));
    }
}

/// The hit is the best place at which the query stands.
pub proof fn law_name_hit_is_best_place(name: Seq<u16>, q: Seq<u16>, i: int)
    requires
        q.len() > 0,
        matcher::is_best_place(name, q, i),
    ensures
        matcher::name_hit(name, q) == Some(
            (
                if name.len() == q.len() {
                    10000
                } else {
                    matcher::place_score(name, i)
                },
                i,
                (i + q.len()) as int,
            ),
        ),
{
    let j = choose|j: int| matcher::is_best_place(name, q, j);
    assert(matcher::occurs_at(name, q, j));
}

/// The name itself is the best hit, then a name that begins with the query, then a word of the
/// name that begins with it, then any other part; no hit on a name scores higher than 10000, and
/// only the whole name scores that.
pub proof fn law_name_hit_grades(name: Seq<u16>, q: Seq<u16>)
    requires
        q.len() > 0,
    ensures
        matcher::name_hit(name, q) matches Some((score, start, end)) ==> {
            &&& matcher::occurs_at(name, q, start)
            &&& end == start + q.len()
            &&& (score == 10000 <==> text::fold_units(name) == q)
            &&& score <= 10000
            &&& score < 10000 ==> score <= 8000 - name.len() as int / 4
            &&& score < 10000 && start > 0 ==> score < 6000 - name.len() as int / 4
            &&& score < 10000 && !matcher::starts_word(name, start) ==> score < 4000
                - name.len() as int / 4
            &&& matcher::occurs_at(name, q, 0) ==> start == 0
        },
{
    if matcher::name_hit(name, q) is Some {
        let i = choose|i: int| matcher::is_best_place(name, q, i);
        assert(matcher::occurs_at(name, q, i));
        if name.len() == q.len() {
            assert(name.subrange(0, name.len() as int) =~= name);
        } else {
            assert(text::fold_units(name).len() == name.len());
        }
    }
}

/// The units of a query stand in a name in the order of the query, at the given places.
pub open spec fn embeds(name: Seq<u16>, q: Seq<u16>, at: Seq<int>) -> bool {
    &&& at.len() == q.len()
    &&& forall|i: int| #![trigger at[i]]
        0 <= i < at.len() ==> 0 <= at[i] < name.len() && text::folded(name[at[i]]) == q[i]
    &&& forall|i: int, j: int| #![trigger at[i], at[j]] 0 <= i < j < at.len() ==> at[i] < at[j]
}

proof fn lemma_embedding_traced(name: Seq<u16>, q: Seq<u16>, from: int, at: Seq<int>)
    requires
        0 <= from,
        embeds(name, q, at),
        forall|i: int| #![trigger at[i]] 0 <= i < at.len() ==> from <= at[i],
    ensures
        matcher::places(name, q, from) is Some,
    decreases name.len() - from,
{
    if q.len() > 0 {
        assert(from <= at[0] < name.len());
        if text::folded(name[from]) == q[0] {
            let rest = at.drop_first();
            assert forall|i: int| #![trigger rest[i]] 0 <= i < rest.len() implies from + 1 <= rest[i]
                && rest[i] < name.len() && text::folded(name[rest[i]]) == q.drop_first()[i] by {
                assert(rest[i] == at[i + 1]);
                assert(at[0] < at[i + 1]);
            }
            assert forall|i: int, j: int| #![trigger rest[i], rest[j]]
                0 <= i < j < rest.len() implies rest[i] < rest[j] by {
                assert(at[i + 1] < at[j + 1]);
            }
            lemma_embedding_traced(name, q.drop_first(), from + 1, rest);
        } else {
            assert forall|i: int| #![trigger at[i]] 0 <= i < at.len() implies from + 1 <= at[i] by {
                assert(at[0] != from);
                if i > 0 {
                    assert(at[0] < at[i]);
                }
            }
            lemma_embedding_traced(name, q, from + 1, at);
        }
    }
}

/// A query of at least two units is hit loosely exactly if its units stand in the name in order.
pub proof fn law_fuzzy_iff_in_order(name: Seq<u16>, q: Seq<u16>)
    requires
        q.len() >= 2,
    ensures
        matcher::fuzzy_hit(name, q) is Some <==> exists|at: Seq<int>| embeds(name, q, at),
{
    if exists|at: Seq<int>| embeds(name, q, at) {
        let at = choose|at: Seq<int>| embeds(name, q, at);
        lemma_embedding_traced(name, q, 0, at);
    }
    if matcher::fuzzy_hit(name, q) is Some {
        matcher::lemma_places(name, q, 0);
        assert(embeds(name, q, matcher::places(name, q, 0)->0));
    }
}

/// What stands for a character in a spelling, by its reading.
pub open spec fn spelled(c: char, reading: Option<Seq<char>>) -> Seq<char> {
    match reading {
        Some(r) => r,
        None => seq![text::lower_char(c)],
    }
}

/// The initials of a text: for each character, the first unit of what stands for it in the
/// spelling, as a query has it.
pub open spec fn initials(s: Seq<char>, readings: Seq<Option<Seq<char>>>) -> Seq<u16>
    decreases s.len(),
{
    if s.len() == 0 {
        seq![]
    } else {
        initials(s.drop_last(), readings).push(
            text::folded(text::utf16(spelled(s.last(), readings[s.len() - 1]))[0]),
        )
    }
}

proof fn lemma_initials(s: Seq<char>, readings: Seq<Option<Seq<char>>>) -> (at: Seq<int>)
    requires
        forall|i: int| #![trigger readings[i]]
            0 <= i < s.len() ==> (readings[i] matches Some(r) ==> r.len() > 0),
    ensures
        embeds(text::utf16(py::spell(s, readings)), initials(s, readings), at),
        s.len() > 0 ==> at[0] == 0,
        at.len() == s.len(),
    decreases s.len(),
{
    if s.len() == 0 {
        seq![]
    } else {
        let rest = s.drop_last();
        let last = spelled(s.last(), readings[s.len() - 1]);
        let before = lemma_initials(rest, readings);
        let head = text::utf16(py::spell(rest, readings));
        let tail = text::utf16(last);
        text::lemma_utf16_concat(py::spell(rest, readings), last);
        lemma_first_unit(last);
        let whole = text::utf16(py::spell(s, readings));
        assert(whole == head + tail);
        let at = before.push(head.len() as int);
        assert forall|i: int| #![trigger at[i]] 0 <= i < at.len() implies 0 <= at[i] < whole.len()
            && text::folded(whole[at[i]]) == initials(s, readings)[i] by {
            if i < before.len() {
                assert(at[i] == before[i]);
                assert(whole[at[i]] == head[at[i]]);
            } else {
                assert(whole[at[i]] == tail[0]);
            }
        }
        assert forall|i: int, j: int| #![trigger at[i], at[j]] 0 <= i < j < at.len() implies at[i]
            < at[j] by {
            assert(at[i] == before[i]);
            if j < before.len() {
                assert(at[j] == before[j]);
            }
        }
        if rest.len() == 0 {
            assert(head.len() == 0);
        }
        at
    }
}

proof fn lemma_first_unit(s: Seq<char>)
    requires
        s.len() > 0,
    ensures
        text::utf16(s).len() > 0,
{
    assert(text::utf16_units(s.last()).len() > 0);
}

/// The initials of a text stand in its pinyin spelling in order, so that a query made of them hits
/// it. No reading may be empty.
pub proof fn law_initials_hit_the_spelling(s: Seq<char>, readings: Seq<Option<Seq<char>>>)
    requires
        s.len() >= 2,
        forall|i: int| #![trigger readings[i]]
            0 <= i < s.len() ==> (readings[i] matches Some(r) ==> r.len() > 0),
    ensures
        matcher::places(text::utf16(py::spell(s, readings)), initials(s, readings), 0) is Some,
        matcher::pinyin_score(
            text::utf16(py::spell(s, readings)),
            initials(s, readings),
        ) is Some,
{
    let at = lemma_initials(s, readings);
    lemma_embedding_traced(text::utf16(py::spell(s, readings)), initials(s, readings), 0, at);
}

/// A query that stands in a spelling outranks, on any other spelling, initials that do not begin
/// with it, unless what the hit loses for its place and for the length of the spelling outweighs
/// its grade: the first scores 3400 or more less that loss, the second less than 1600.
pub proof fn law_spelling_above_inner_initials(py: Seq<u16>, other: Seq<u16>, q: Seq<u16>)
    requires
        q.len() >= 2,
        matcher::first_place(py, q, 0) is Some,
        matcher::first_place(other, q, 0) is None,
        matcher::places(other, q, 0) matches Some(at) && at.first() > 0,
    ensures
        matcher::pinyin_score(py, q) matches Some(full) && matcher::pinyin_score(
            other,
            q,
        ) matches Some(inner) && {
            let loss = matcher::first_place(py, q, 0)->0 + py.len() as int / 4;
            &&& full >= 3400 - loss
            &&& inner < 1600 - other.len() as int / 4
            &&& loss <= 1800 + other.len() as int / 4 ==> full > inner
        },
{
    matcher::lemma_gaps(other, q);
    matcher::lemma_places(other, q, 0);
    let at = matcher::places(other, q, 0)->0;
    if matcher::gaps(at) == 0 {
        lemma_tight_is_part(other, q, at);
        lemma_first_place_found(other, q, 0, at.first());
    }
}

/// Units that follow each other without a gap are a part of the text.
proof fn lemma_tight_is_part(text: Seq<u16>, q: Seq<u16>, at: Seq<int>)
    requires
        q.len() > 0,
        embeds(text, q, at),
        matcher::gaps(at) == 0,
    ensures
        matcher::occurs_at(text, q, at.first()),
{
    let i = at.first();
    let n = q.len() as int;
    assert forall|k: int| 0 <= k < n implies at[k] == i + k by {
        matcher::lemma_increasing_spread(at, 0, k);
        matcher::lemma_increasing_spread(at, k, n - 1);
    }
    assert(at[n - 1] == i + n - 1);
    let part = text::fold_units(text.subrange(i, i + n));
    assert forall|k: int| 0 <= k < n implies part[k] == q[k] by {
        assert(at[k] == i + k);
        assert(text::folded(text[at[k]]) == q[k]);
    }
    assert(part =~= q);
}

pub proof fn lemma_first_place_found(text: Seq<u16>, q: Seq<u16>, from: int, i: int)
    requires
        0 <= from <= i,
        matcher::occurs_at(text, q, i),
    ensures
        matcher::first_place(text, q, from) is Some,
    decreases i - from,
{
    if !matcher::occurs_at(text, q, from) {
        lemma_first_place_found(text, q, from + 1, i);
    }
}

/// A loose hit that is no abbreviation scores below every grade of a hit as a part of a name, the
/// lowest of which is 4000.
pub proof fn law_loose_below_grades(name: Seq<u16>, q: Seq<u16>)
    requires
        2 <= q.len() <= 8,
        matcher::fuzzy_hit(name, q) is Some,
        matcher::word_starts(name, matcher::places(name, q, 0)->0) < q.len(),
    ensures
        matcher::fuzzy_hit(name, q) matches Some((score, _, _)) && score <= 2620,
{
    matcher::lemma_gaps(name, q);
}

/// A hit of a query as a part of a name outranks a loose hit on any other name that is no
/// abbreviation, unless what the hit loses for its place and for the length of the name outweighs
/// its grade.
pub proof fn law_part_above_loose(name: Seq<u16>, other: Seq<u16>, q: Seq<u16>)
    requires
        2 <= q.len() <= 8,
        matcher::name_hit(name, q) matches Some((_, start, _)) && start * 4 + name.len() as int / 4
            < 1380,
        matcher::fuzzy_hit(other, q) is Some,
        matcher::word_starts(other, matcher::places(other, q, 0)->0) < q.len(),
    ensures
        matcher::name_hit(name, q) matches Some(part) && matcher::fuzzy_hit(other, q) matches Some(
            loose,
        ) && part.0 > loose.0,
{
    let i = choose|i: int| matcher::is_best_place(name, q, i);
    assert(matcher::occurs_at(name, q, i));
    law_loose_below_grades(other, q);
}

/// All candidates of a query.
pub open spec fn all_hits(
    volumes: Seq<VolumeModel>,
    q: Seq<u16>,
    opts: SearchOptions,
) -> Seq<Seq<Cand>> {
    Seq::new(volumes.len(), |v: int| matcher::volume_hits(volumes[v], v, q, opts))
}

pub proof fn lemma_joined_contains(parts: Seq<Seq<Cand>>, c: Cand)
    ensures
        matcher::joined(parts).contains(c) <==> exists|v: int| #![trigger parts[v]]
            0 <= v < parts.len() && parts[v].contains(c),
    decreases parts.len(),
{
    if parts.len() > 0 {
        let rest = parts.drop_last();
        lemma_joined_contains(rest, c);
        topk::lemma_contains_concat(matcher::joined(rest), parts.last(), c);
        if matcher::joined(rest).contains(c) {
            let v = choose|v: int| #![trigger rest[v]] 0 <= v < rest.len() && rest[v].contains(c);
            assert(parts[v].contains(c));
        }
        if parts.last().contains(c) {
            assert(parts[parts.len() - 1].contains(c));
        }
        if exists|v: int| #![trigger parts[v]] 0 <= v < parts.len() && parts[v].contains(c) {
            let v = choose|v: int| #![trigger parts[v]]
                0 <= v < parts.len() && parts[v].contains(c);
            if v < rest.len() {
                assert(rest[v].contains(c));
            }
        }
    }
}

proof fn lemma_joined_len(parts: Seq<Seq<Cand>>, fulls: Seq<Seq<Cand>>, k: nat)
    requires
        parts.len() == fulls.len(),
        forall|v: int| #![trigger parts[v]]
            0 <= v < parts.len() ==> parts[v].len() == topk::least(k, fulls[v].len()),
    ensures
        matcher::joined(parts).len() <= matcher::joined(fulls).len(),
        matcher::joined(parts).len() < k ==> matcher::joined(parts).len() == matcher::joined(
            fulls,
        ).len(),
    decreases parts.len(),
{
    if parts.len() > 0 {
        let a = parts.drop_last();
        let b = fulls.drop_last();
        assert forall|v: int| #![trigger a[v]] 0 <= v < a.len() implies a[v].len() == topk::least(
            k,
            b[v].len(),
        ) by {
            assert(a[v] == parts[v]);
        }
        lemma_joined_len(a, b, k);
        assert(parts[parts.len() - 1].len() == topk::least(k, fulls[parts.len() - 1].len()));
    }
}

/// Where each volume keeps at least as many candidates as results are wanted, the results are the
/// best of all hits on all volumes.
pub proof fn law_search_best(
    items: Seq<SearchResult>,
    volumes: Seq<VolumeModel>,
    q: Seq<u16>,
    opts: SearchOptions,
)
    requires
        matcher::answers(items, volumes, q, opts),
        opts.limit <= opts.top_k,
    ensures
        exists|chosen: Seq<Cand>|
            #![trigger matcher::shows_best(items, volumes, all_hits(volumes, q, opts), chosen, opts.limit as nat)]
            matcher::shows_best(
                items,
                volumes,
                all_hits(volumes, q, opts),
                chosen,
                opts.limit as nat,
            ),
{
    let (parts, chosen) = choose|parts: Seq<Seq<Cand>>, chosen: Seq<Cand>|
        #![trigger matcher::shows_best(items, volumes, parts, chosen, opts.limit as nat)]
        matcher::volume_tops(parts, volumes, q, opts) && matcher::shows_best(
            items,
            volumes,
            parts,
            chosen,
            opts.limit as nat,
        );
    let fulls = all_hits(volumes, q, opts);
    let some = matcher::joined(parts);
    let all = matcher::joined(fulls);
    let m = opts.limit as nat;
    let k = opts.top_k as nat;
    assert forall|v: int| #![trigger parts[v]] 0 <= v < parts.len() implies topk::is_top(
        parts[v],
        fulls[v],
        k,
    ) by {}
    lemma_joined_len(parts, fulls, k);
    assert forall|i: int| #![trigger chosen[i]] 0 <= i < chosen.len() implies all.contains(
        chosen[i],
    ) by {
        assert(some.contains(chosen[i]));
        lemma_joined_contains(parts, chosen[i]);
        lemma_joined_contains(fulls, chosen[i]);
        let v = choose|v: int| #![trigger parts[v]]
            0 <= v < parts.len() && parts[v].contains(chosen[i]);
        let j = choose|j: int| 0 <= j < parts[v].len() && parts[v][j] == chosen[i];
        assert(fulls[v].contains(parts[v][j]));
    }
    assert forall|c: Cand| #![trigger all.contains(c)]
        all.contains(c) && !chosen.contains(c) implies chosen.len() == m && forall|i: int|
        #![trigger chosen[i]]
        0 <= i < chosen.len() ==> chosen[i].score >= c.score by {
        if !some.contains(c) {
            lemma_joined_contains(parts, c);
            lemma_joined_contains(fulls, c);
            let v = choose|v: int| #![trigger fulls[v]]
                0 <= v < fulls.len() && fulls[v].contains(c);
            let part = parts[v];
            assert(topk::is_top(part, fulls[v], k));
            assert(!part.contains(c));
            assert(part.len() == k);
            lemma_part_len(parts, v);
            assert forall|i: int| #![trigger chosen[i]] 0 <= i < chosen.len() implies
                chosen[i].score >= c.score by {
                let s = chosen[i];
                if s.score < c.score {
                    if part.contains(s) {
                        let j = choose|j: int| 0 <= j < part.len() && part[j] == s;
                        assert(part[j].score >= c.score);
                    }
                    let t = topk::lemma_left_out(part, chosen, s);
                    lemma_joined_contains(parts, t);
                    assert(parts[v].contains(t));
                    assert(some.contains(t));
                    let j = choose|j: int| 0 <= j < part.len() && part[j] == t;
                    assert(part[j].score >= c.score);
                }
            }
        }
    }
    assert(topk::is_top(chosen, all, m));
    assert(matcher::shows_best(items, volumes, fulls, chosen, m));
}

proof fn lemma_part_len(parts: Seq<Seq<Cand>>, v: int)
    requires
        0 <= v < parts.len(),
    ensures
        parts[v].len() <= matcher::joined(parts).len(),
    decreases parts.len(),
{
    if v < parts.len() - 1 {
        lemma_part_len(parts.drop_last(), v);
    }
}

/// What is shown is an entry of the index that the query hits, with its score and the hit part of
/// its name.
pub proof fn law_results_are_hits(
    items: Seq<SearchResult>,
    volumes: Seq<VolumeModel>,
    q: Seq<u16>,
    opts: SearchOptions,
    i: int,
)
    requires
        matcher::answers(items, volumes, q, opts),
        forall|v: int| #![trigger volumes[v]]
            0 <= v < volumes.len() ==> volumes[v].pools_ok(),
        volumes.len() <= usize::MAX,
        q.len() > 0,
        opts.fits(),
        0 <= i < items.len(),
    ensures
        items[i].volume < volumes.len(),
        items[i].slot < volumes[items[i].volume as int].entries.len(),
        ({
            let m = volumes[items[i].volume as int];
            matcher::ranked_hit(m, m.entries[items[i].slot as int], q, opts) == Some(
                (
                    items[i].score as int,
                    items[i].match_start as int,
                    items[i].match_start + items[i].match_len,
                ),
            )
        }),
{
    let (parts, chosen) = choose|parts: Seq<Seq<Cand>>, chosen: Seq<Cand>|
        #![trigger matcher::shows_best(items, volumes, parts, chosen, opts.limit as nat)]
        matcher::volume_tops(parts, volumes, q, opts) && matcher::shows_best(
            items,
            volumes,
            parts,
            chosen,
            opts.limit as nat,
        );
    let c = chosen[i];
    assert(matcher::shows(items[i], volumes, c));
    assert(matcher::joined(parts).contains(chosen[i]));
    lemma_joined_contains(parts, c);
    let v = choose|v: int| #![trigger parts[v]] 0 <= v < parts.len() && parts[v].contains(c);
    let j = choose|j: int| 0 <= j < parts[v].len() && parts[v][j] == c;
    let hits = matcher::volume_hits(volumes[v], v, q, opts);
    assert(hits.contains(parts[v][j]));
    let h = choose|h: int| 0 <= h < hits.len() && hits[h] == c;
    lemma_hit_source(volumes[v], v, volumes[v].entries, 0, q, opts, h);
}

pub proof fn lemma_hit_source(
    m: VolumeModel,
    volume: int,
    entries: Seq<Entry>,
    base: int,
    q: Seq<u16>,
    opts: SearchOptions,
    h: int,
)
    requires
        forall|i: int| #![trigger entries[i]]
            0 <= i < entries.len() ==> m.name_in_pool(entries[i]) && (entries[i].py_len > 0
                ==> m.py_in_pool(entries[i])),
        q.len() > 0,
        opts.fits(),
        0 <= base,
        base + entries.len() <= u32::MAX,
        0 <= volume <= usize::MAX,
        0 <= h < matcher::hits(m, volume, entries, base, q, opts).len(),
    ensures
        ({
            let c = matcher::hits(m, volume, entries, base, q, opts)[h];
            &&& c.volume == volume
            &&& base <= c.slot < base + entries.len()
            &&& matcher::ranked_hit(m, entries[c.slot - base], q, opts) == Some(
                (c.score as int, c.start as int, c.end as int),
            )
            &&& c.start <= c.end
        }),
    decreases entries.len(),
{
    let rest = entries.drop_last();
    let e = entries.last();
    let before = matcher::hits(m, volume, rest, base, q, opts);
    let all = matcher::hits(m, volume, entries, base, q, opts);
    if h < before.len() {
        assert forall|i: int| #![trigger rest[i]] 0 <= i < rest.len() implies m.name_in_pool(rest[i])
            && (rest[i].py_len > 0 ==> m.py_in_pool(rest[i])) by {
            assert(rest[i] == entries[i]);
        }
        lemma_hit_source(m, volume, rest, base, q, opts, h);
        assert(all[h] == before[h]);
        assert(rest[all[h].slot - base] == entries[all[h].slot - base]);
    } else {
        assert(entries[entries.len() - 1] == e);
        matcher::lemma_score_fits(m, e, q, opts);
    }
}

/// Where there are no more hits than results wanted, every entry that the query hits is shown.
pub proof fn law_all_hits_are_shown(
    items: Seq<SearchResult>,
    volumes: Seq<VolumeModel>,
    q: Seq<u16>,
    opts: SearchOptions,
    v: int,
    s: int,
)
    requires
        matcher::answers(items, volumes, q, opts),
        opts.limit <= opts.top_k,
        matcher::joined(all_hits(volumes, q, opts)).len() <= opts.limit,
        0 <= v < volumes.len() <= usize::MAX,
        volumes[v].pools_ok(),
        0 <= s < volumes[v].entries.len(),
        matcher::ranked_hit(volumes[v], volumes[v].entries[s], q, opts) is Some,
    ensures
        exists|i: int| #![trigger items[i]]
            0 <= i < items.len() && items[i].volume == v && items[i].slot == s,
{
    law_search_best(items, volumes, q, opts);
    let fulls = all_hits(volumes, q, opts);
    let all = matcher::joined(fulls);
    let m = opts.limit as nat;
    let chosen = choose|chosen: Seq<Cand>|
        #![trigger matcher::shows_best(items, volumes, fulls, chosen, m)]
        matcher::shows_best(items, volumes, fulls, chosen, m);
    let c = lemma_hit_is_listed(volumes[v], v, volumes[v].entries, 0, q, opts, s);
    lemma_joined_contains(fulls, c);
    assert(fulls[v].contains(c));
    assert(all.contains(c));
    if !chosen.contains(c) {
        assert(chosen.len() == m);
        assert(all.len() == m);
        lemma_full_selection(chosen, all, c);
    }
    let i = choose|i: int| 0 <= i < chosen.len() && chosen[i] == c;
    assert(matcher::shows(items[i], volumes, chosen[i]));
}

/// A list without repetitions that is as long as another and drawn from it leaves nothing out.
proof fn lemma_full_selection(sel: Seq<Cand>, all: Seq<Cand>, c: Cand)
    requires
        sel.no_duplicates(),
        sel.len() == all.len(),
        forall|i: int| #![trigger sel[i]] 0 <= i < sel.len() ==> all.contains(sel[i]),
        all.contains(c),
    ensures
        sel.contains(c),
{
    if !sel.contains(c) {
        sel.unique_seq_to_set();
        vstd::seq_lib::seq_to_set_is_finite(all);
        all.lemma_cardinality_of_set();
        let rest = all.to_set().remove(c);
        assert(sel.to_set().subset_of(rest)) by {
            assert forall|x: Cand| sel.to_set().contains(x) implies rest.contains(x) by {
                let i = choose|i: int| 0 <= i < sel.len() && sel[i] == x;
                assert(all.contains(sel[i]));
            }
        }
        vstd::set_lib::lemma_len_subset(sel.to_set(), rest);
        assert(all.to_set().contains(c));
    }
}

pub proof fn lemma_hit_is_listed(
    m: VolumeModel,
    volume: int,
    entries: Seq<Entry>,
    base: int,
    q: Seq<u16>,
    opts: SearchOptions,
    s: int,
) -> (c: Cand)
    requires
        0 <= base,
        base + entries.len() <= u32::MAX,
        0 <= volume <= usize::MAX,
        0 <= s < entries.len(),
        matcher::ranked_hit(m, entries[s], q, opts) is Some,
    ensures
        matcher::hits(m, volume, entries, base, q, opts).contains(c),
        c.volume == volume,
        c.slot == base + s,
        c.score == (matcher::ranked_hit(m, entries[s], q, opts)->0).0 as i32,
    decreases entries.len(),
{
    let rest = entries.drop_last();
    let all = matcher::hits(m, volume, entries, base, q, opts);
    let before = matcher::hits(m, volume, rest, base, q, opts);
    if s < rest.len() {
        assert(rest[s] == entries[s]);
        let c = lemma_hit_is_listed(m, volume, rest, base, q, opts, s);
        let i = choose|i: int| 0 <= i < before.len() && before[i] == c;
        assert(all[i] == c);
        c
    } else {
        assert(entries.last() == entries[s]);
        let c = all.last();
        assert(all[all.len() - 1] == c);
        c
    }
}

proof fn lemma_joined_count(a: Seq<Seq<Cand>>, b: Seq<Seq<Cand>>, x: int)
    requires
        a.len() == b.len(),
        forall|v: int| #![trigger a[v]]
            0 <= v < a.len() ==> topk::count_from(a[v], x) == topk::count_from(b[v], x),
    ensures
        topk::count_from(matcher::joined(a), x) == topk::count_from(matcher::joined(b), x),
    decreases a.len(),
{
    if a.len() > 0 {
        let n = a.len() - 1;
        assert forall|v: int| #![trigger a.drop_last()[v]]
            0 <= v < n implies topk::count_from(a.drop_last()[v], x) == topk::count_from(
            b.drop_last()[v],
            x,
        ) by {
            assert(a.drop_last()[v] == a[v]);
        }
        lemma_joined_count(a.drop_last(), b.drop_last(), x);
        assert(topk::count_from(a[n], x) == topk::count_from(b[n], x));
        topk::lemma_count_concat(matcher::joined(a.drop_last()), a.last(), x);
        topk::lemma_count_concat(matcher::joined(b.drop_last()), b.last(), x);
    }
}

proof fn lemma_joined_unique(parts: Seq<Seq<Cand>>)
    requires
        forall|v: int| #![trigger parts[v]]
            0 <= v < parts.len() ==> parts[v].no_duplicates() && forall|i: int|
                #![trigger parts[v][i]]
                0 <= i < parts[v].len() ==> parts[v][i].volume == v,
    ensures
        matcher::joined(parts).no_duplicates(),
        forall|i: int| #![trigger matcher::joined(parts)[i]]
            0 <= i < matcher::joined(parts).len() ==> matcher::joined(parts)[i].volume
                < parts.len(),
    decreases parts.len(),
{
    if parts.len() > 0 {
        let rest = parts.drop_last();
        let n = rest.len() as int;
        let last = parts[n];
        assert forall|v: int| #![trigger rest[v]] 0 <= v < rest.len() implies rest[v].no_duplicates()
            && forall|i: int| #![trigger rest[v][i]]
            0 <= i < rest[v].len() ==> rest[v][i].volume == v by {
            assert(rest[v] == parts[v]);
        }
        lemma_joined_unique(rest);
        let head = matcher::joined(rest);
        let all = matcher::joined(parts);
        assert(all == head + last);
        assert forall|i: int, j: int| 0 <= i < all.len() && 0 <= j < all.len() && i != j implies
            all[i] != all[j] by {
            if i < head.len() && j < head.len() {
                assert(head[i] != head[j]);
            } else if i >= head.len() && j >= head.len() {
                assert(last[i - head.len()] != last[j - head.len()]);
            } else if i < head.len() {
                assert(head[i].volume < n && last[j - head.len()].volume == n);
            } else {
                assert(head[j].volume < n && last[i - head.len()].volume == n);
            }
        }
        assert forall|i: int| #![trigger all[i]] 0 <= i < all.len() implies all[i].volume
            < parts.len() by {
            if i < head.len() {
                assert(head[i].volume < n);
            } else {
                assert(last[i - head.len()].volume == n);
            }
        }
    }
}

/// The candidates of the volumes of an answer are those of one volume each, and how many have at
/// least a score is settled by the hits.
proof fn lemma_parts_settled(
    parts: Seq<Seq<Cand>>,
    volumes: Seq<VolumeModel>,
    q: Seq<u16>,
    opts: SearchOptions,
)
    requires
        matcher::volume_tops(parts, volumes, q, opts),
        forall|v: int| #![trigger volumes[v]]
            0 <= v < volumes.len() ==> volumes[v].entries.len() <= u32::MAX,
        volumes.len() <= usize::MAX,
    ensures
        matcher::joined(parts).no_duplicates(),
        forall|v: int, x: int| #![trigger topk::count_from(parts[v], x)]
            0 <= v < parts.len() ==> topk::count_from(parts[v], x) == topk::least(
                opts.top_k as nat,
                topk::count_from(matcher::volume_hits(volumes[v], v, q, opts), x),
            ),
{
    assert forall|v: int| #![trigger parts[v]] 0 <= v < parts.len() implies
        parts[v].no_duplicates() && (forall|i: int| #![trigger parts[v][i]]
        0 <= i < parts[v].len() ==> parts[v][i].volume == v) && matcher::volume_hits(
        volumes[v],
        v,
        q,
        opts,
    ).no_duplicates() by {
        assert(volumes[v].entries.len() <= u32::MAX);
        matcher::lemma_hits(volumes[v], v, volumes[v].entries, 0, q, opts);
        let hits = matcher::volume_hits(volumes[v], v, q, opts);
        assert forall|i: int| #![trigger parts[v][i]] 0 <= i < parts[v].len() implies
            parts[v][i].volume == v by {
            assert(hits.contains(parts[v][i]));
            let h = choose|h: int| 0 <= h < hits.len() && hits[h] == parts[v][i];
            assert(hits[h].volume == v);
        }
    }
    lemma_joined_unique(parts);
    assert forall|v: int, x: int| #![trigger topk::count_from(parts[v], x)]
        0 <= v < parts.len() implies topk::count_from(parts[v], x) == topk::least(
        opts.top_k as nat,
        topk::count_from(matcher::volume_hits(volumes[v], v, q, opts), x),
    ) by {
        topk::lemma_top_count(
            parts[v],
            matcher::volume_hits(volumes[v], v, q, opts),
            opts.top_k as nat,
            x,
        );
    }
}

/// Two searches for the same find equally many results with the same scores, whichever of equally
/// scored ones they show.
pub proof fn law_scores_are_settled(
    items: Seq<SearchResult>,
    others: Seq<SearchResult>,
    volumes: Seq<VolumeModel>,
    q: Seq<u16>,
    opts: SearchOptions,
)
    requires
        matcher::answers(items, volumes, q, opts),
        matcher::answers(others, volumes, q, opts),
        forall|v: int| #![trigger volumes[v]]
            0 <= v < volumes.len() ==> volumes[v].entries.len() <= u32::MAX,
        volumes.len() <= usize::MAX,
    ensures
        items.len() == others.len(),
        forall|i: int| #![trigger items[i]] #![trigger others[i]]
            0 <= i < items.len() ==> items[i].score == others[i].score,
{
    let m = opts.limit as nat;
    let (parts1, chosen1) = choose|parts: Seq<Seq<Cand>>, chosen: Seq<Cand>|
        #![trigger matcher::shows_best(items, volumes, parts, chosen, m)]
        matcher::volume_tops(parts, volumes, q, opts) && matcher::shows_best(
            items,
            volumes,
            parts,
            chosen,
            m,
        );
    let (parts2, chosen2) = choose|parts: Seq<Seq<Cand>>, chosen: Seq<Cand>|
        #![trigger matcher::shows_best(others, volumes, parts, chosen, m)]
        matcher::volume_tops(parts, volumes, q, opts) && matcher::shows_best(
            others,
            volumes,
            parts,
            chosen,
            m,
        );
    lemma_parts_settled(parts1, volumes, q, opts);
    lemma_parts_settled(parts2, volumes, q, opts);
    assert forall|x: int| #[trigger] topk::count_from(chosen1, x) == topk::count_from(
        chosen2,
        x,
    ) by {
        assert forall|v: int| #![trigger parts1[v]] 0 <= v < parts1.len() implies
            topk::count_from(parts1[v], x) == topk::count_from(parts2[v], x) by {}
        lemma_joined_count(parts1, parts2, x);
        topk::lemma_top_count(chosen1, matcher::joined(parts1), m, x);
        topk::lemma_top_count(chosen2, matcher::joined(parts2), m, x);
    }
    topk::lemma_same_scores(chosen1, chosen2);
    assert forall|i: int| #![trigger items[i]] #![trigger others[i]] 0 <= i < items.len() implies
        items[i].score == others[i].score by {
        assert(matcher::shows(items[i], volumes, chosen1[i]));
        assert(matcher::shows(others[i], volumes, chosen2[i]));
        assert(chosen1[i].score == chosen2[i].score);
    }
}

pub proof fn lemma_query_folds(query: Seq<char>)
    ensures
        matcher::query_units(query) == text::utf16(text::ascii_lower(query)),
    decreases query.len(),
{
    let lower = text::ascii_lower(query);
    if query.len() == 0 {
        assert(matcher::query_units(query) =~= text::utf16(lower));
    } else {
        let rest = query.drop_last();
        let c = query.last();
        lemma_query_folds(rest);
        assert(lower.drop_last() =~= text::ascii_lower(rest));
        assert(lower.last() == text::lower_char(c));
        assert(text::fold_units(text::utf16_units(c)) =~= text::utf16_units(text::lower_char(c)));
        assert(matcher::query_units(query) =~= matcher::query_units(rest) + text::fold_units(
            text::utf16_units(c),
        ));
    }
}

/// Queries that differ only in the case of ASCII letters find equally many results with the same
/// scores.
pub proof fn law_letter_case_does_not_count(
    query: Seq<char>,
    other: Seq<char>,
    items: Seq<SearchResult>,
    others: Seq<SearchResult>,
    volumes: Seq<VolumeModel>,
    opts: SearchOptions,
)
    requires
        text::ascii_lower(query) == text::ascii_lower(other),
        matcher::answers(items, volumes, matcher::query_units(query), opts),
        matcher::answers(others, volumes, matcher::query_units(other), opts),
        forall|v: int| #![trigger volumes[v]]
            0 <= v < volumes.len() ==> volumes[v].entries.len() <= u32::MAX,
        volumes.len() <= usize::MAX,
    ensures
        matcher::query_units(query) == matcher::query_units(other),
        items.len() == others.len(),
        forall|i: int| #![trigger items[i]] #![trigger others[i]]
            0 <= i < items.len() ==> items[i].score == others[i].score,
{
    lemma_query_folds(query);
    lemma_query_folds(other);
    law_scores_are_settled(items, others, volumes, matcher::query_units(query), opts);
}

} // verus!
