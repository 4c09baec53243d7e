//! What a query finds and with what score, told by units, places and flag bits.

use vstd::prelude::*;

use crate::matcher;
use crate::matcher::{SearchOptions, SearchResult};
use crate::model;
use crate::model::VolumeModel;
use crate::search_laws;
use crate::text;
use crate::text_laws;
use crate::text_laws::same_unit;
use crate::topk::Cand;
use crate::types;
use crate::types::Entry;

verus! {

/// Units as a query has them: without an ASCII letter in upper case.
pub open spec fn is_query(q: Seq<u16>) -> bool {
    forall|k: int| #![trigger q[k]] 0 <= k < q.len() ==> !(0x41 <= q[k] <= 0x5A)
}

/// A query as it is held against names is what was typed, but for the case of ASCII letters, none of
/// which is left in upper case.
pub proof fn law_query_units(query: Seq<char>)
    ensures
        ({
            let q = matcher::query_units(query);
            let typed = text::utf16(query);
            &&& is_query(q)
            &&& q.len() == typed.len()
            &&& forall|k: int| #![trigger q[k]] 0 <= k < q.len() ==> same_unit(typed[k], q[k])
        }),
{
    let typed = text::utf16(query);
    let q = matcher::query_units(query);
    assert forall|k: int| #![trigger q[k]] 0 <= k < q.len() implies same_unit(typed[k], q[k])
        && !(0x41 <= q[k] <= 0x5A) by {
        text_laws::law_folding(typed[k], typed[k]);
    }
}

/// The query stands at a place in a name, but for the case of ASCII letters.
pub open spec fn stands(name: Seq<u16>, q: Seq<u16>, i: int) -> bool {
    &&& 0 <= i
    &&& i + q.len() <= name.len()
    &&& forall|k: int| #![trigger q[k]] 0 <= k < q.len() ==> same_unit(name[i + k], q[k])
}

proof fn lemma_stands(name: Seq<u16>, q: Seq<u16>, i: int)
    requires
        is_query(q),
    ensures
        stands(name, q, i) <==> matcher::occurs_at(name, q, i),
{
    if 0 <= i && i + q.len() <= name.len() {
        let part = text::fold_units(name.subrange(i, i + q.len()));
        if matcher::occurs_at(name, q, i) {
            assert forall|k: int| #![trigger q[k]] 0 <= k < q.len() implies same_unit(
                name[i + k],
                q[k],
            ) by {
                assert(part[k] == q[k]);
                assert(part[k] == text::folded(name[i + k]));
                text_laws::law_folding(name[i + k], q[k]);
            }
        }
        if stands(name, q, i) {
            assert forall|k: int| 0 <= k < q.len() implies part[k] == q[k] by {
                assert(part[k] == text::folded(name[i + k]));
                assert(same_unit(name[i + k], q[k]));
                text_laws::law_folding(name[i + k], q[k]);
                text_laws::law_folding(q[k], q[k]);
            }
            assert(part =~= q);
        }
    }
}

/// A place is the start of the name, or follows one of the characters ` -_.([{@#+`.
pub open spec fn begins_word(name: Seq<u16>, i: int) -> bool {
    i == 0 || seq![0x20u16, 0x2D, 0x5F, 0x2E, 0x28, 0x5B, 0x7B, 0x40, 0x23, 0x2B].contains(name[i - 1])
}

/// A word starts at the start of a name, and behind a blank and the other separators.
pub proof fn law_word_starts(name: Seq<u16>, i: int)
    ensures
        begins_word(name, i) <==> matcher::starts_word(name, i),
{
    let all = seq![0x20u16, 0x2D, 0x5F, 0x2E, 0x28, 0x5B, 0x7B, 0x40, 0x23, 0x2B];
    let c = name[i - 1];
    assert(all[0] == 0x20 && all[1] == 0x2D && all[2] == 0x5F && all[3] == 0x2E && all[4] == 0x28
        && all[5] == 0x5B && all[6] == 0x7B && all[7] == 0x40 && all[8] == 0x23 && all[9] == 0x2B);
    if all.contains(c) {
        let k = choose|k: int| 0 <= k < all.len() && all[k] == c;
        assert(0 <= k < 10);
    }
}

/// A query hits a name as a part of it exactly if it stands somewhere in it. The name itself scores
/// 10000. Otherwise the hit is at a place where the query stands, and loses a quarter of the name's
/// length: at the start of the name it scores 8000, at the start of a word 6000 and elsewhere 4000,
/// less four for each unit before it. No other place where the query stands would score more, and no
/// earlier one as much.
pub proof fn law_hit_on_a_part(name: Seq<u16>, q: Seq<u16>)
    requires
        is_query(q),
        q.len() > 0,
    ensures
        matcher::name_hit(name, q) is Some <==> exists|i: int| stands(name, q, i),
        matcher::name_hit(name, q) matches Some((score, start, end)) ==> {
            &&& stands(name, q, start)
            &&& end == start + q.len()
            &&& name.len() == q.len() ==> score == 10000
            &&& name.len() > q.len() ==> {
                let full = score + name.len() as int / 4;
                &&& start == 0 ==> full == 8000
                &&& start > 0 && begins_word(name, start) ==> full == 6000 - 4 * start
                &&& start > 0 && !begins_word(name, start) ==> full == 4000 - 4 * start
                &&& stands(name, q, 0) ==> start == 0
                &&& forall|j: int| #![trigger stands(name, q, j)]
                    stands(name, q, j) ==> full >= 4000 - 4 * j && (begins_word(name, j) ==> full
                        >= 6000 - 4 * j)
                &&& forall|j: int| #![trigger stands(name, q, j)]
                    stands(name, q, j) && j < start ==> full > 4000 - 4 * j && (begins_word(name, j)
                        ==> full > 6000 - 4 * j)
            }
        },
{
    assert forall|i: int| stands(name, q, i) <==> #[trigger] matcher::occurs_at(name, q, i) by {
        lemma_stands(name, q, i);
    }
    search_laws::law_name_hit_iff_part(name, q);
    if exists|i: int| stands(name, q, i) {
        let i = choose|i: int| stands(name, q, i);
        assert(matcher::occurs_at(name, q, i));
    }
    if matcher::name_hit(name, q) is Some {
        let start = choose|i: int| matcher::is_best_place(name, q, i);
        assert(matcher::occurs_at(name, q, start));
        lemma_stands(name, q, start);
        law_word_starts(name, start);
        assert forall|j: int| #![trigger stands(name, q, j)] stands(name, q, j) implies
            matcher::occurs_at(name, q, j) && (begins_word(name, j) <==> matcher::starts_word(
            name,
            j,
        )) && (matcher::place_score(name, j) < matcher::place_score(name, start)
            || matcher::place_score(name, j) == matcher::place_score(name, start) && start <= j) by {
            lemma_stands(name, q, j);
            law_word_starts(name, j);
        }
    }
}

/// The units of the query stand in the name one after the other, at the given places, but for the case
/// of ASCII letters.
pub open spec fn follows(name: Seq<u16>, q: Seq<u16>, at: Seq<int>) -> bool {
    &&& at.len() == q.len()
    &&& forall|i: int| #![trigger at[i]]
        0 <= i < at.len() ==> 0 <= at[i] < name.len() && same_unit(name[at[i]], q[i])
    &&& forall|i: int, j: int| #![trigger at[i], at[j]] 0 <= i < j < at.len() ==> at[i] < at[j]
}

/// Each unit of the query is taken at the first place at which it stands behind the one before.
pub open spec fn takes_first(name: Seq<u16>, q: Seq<u16>, at: Seq<int>) -> bool {
    &&& forall|p: int| #![trigger name[p]] 0 <= p < at[0] ==> !same_unit(name[p], q[0])
    &&& forall|i: int, p: int| #![trigger at[i], name[p]]
        0 < i < at.len() && at[i - 1] < p < at[i] ==> !same_unit(name[p], q[i])
}

proof fn lemma_follows(name: Seq<u16>, q: Seq<u16>, at: Seq<int>)
    requires
        is_query(q),
    ensures
        follows(name, q, at) <==> search_laws::embeds(name, q, at),
{
    if at.len() == q.len() {
        assert forall|i: int| #![trigger at[i]] 0 <= i < at.len() implies (same_unit(
            name[at[i]],
            q[i],
        ) <==> text::folded(name[at[i]]) == q[i]) by {
            text_laws::law_folding(name[at[i]], q[i]);
            text_laws::law_folding(q[i], q[i]);
        }
    }
}

proof fn lemma_first_places(name: Seq<u16>, q: Seq<u16>, from: int, at: Seq<int>)
    requires
        is_query(q),
        0 <= from,
        follows(name, q, at),
        forall|i: int| #![trigger at[i]] 0 <= i < at.len() ==> from <= at[i],
        q.len() > 0 ==> forall|p: int| #![trigger name[p]]
            from <= p < at[0] ==> !same_unit(name[p], q[0]),
        forall|i: int, p: int| #![trigger at[i], name[p]]
            0 < i < at.len() && at[i - 1] < p < at[i] ==> !same_unit(name[p], q[i]),
    ensures
        matcher::places(name, q, from) == Some(at),
    decreases name.len() - from,
{
    if q.len() == 0 {
        assert(at =~= seq![]);
    } else {
        assert(from <= at[0] < name.len());
        text_laws::law_folding(name[from], q[0]);
        text_laws::law_folding(q[0], q[0]);
        if from == at[0] {
            let rest = at.drop_first();
            let tail = q.drop_first();
            assert forall|i: int| #![trigger rest[i]] 0 <= i < rest.len() implies from + 1 <= rest[i]
                < name.len() && same_unit(name[rest[i]], tail[i]) by {
                assert(rest[i] == at[i + 1]);
                assert(at[0] < at[i + 1]);
            }
            assert forall|i: int, j: int| #![trigger rest[i], rest[j]]
                0 <= i < j < rest.len() implies rest[i] < rest[j] by {
                assert(at[i + 1] < at[j + 1]);
            }
            if tail.len() > 0 {
                assert forall|p: int| #![trigger name[p]] from + 1 <= p < rest[0] implies !same_unit(
                    name[p],
                    tail[0],
                ) by {
                    assert(rest[0] == at[1]);
                    assert(at[1 - 1] < p < at[1]);
                }
            }
            assert forall|i: int, p: int| #![trigger rest[i], name[p]]
                0 < i < rest.len() && rest[i - 1] < p < rest[i] implies !same_unit(
                name[p],
                tail[i],
            ) by {
                assert(at[i + 1] == rest[i] && at[i] == rest[i - 1]);
                assert(at[(i + 1) - 1] < p < at[i + 1]);
            }
            assert forall|k: int| #![trigger tail[k]] 0 <= k < tail.len() implies !(0x41 <= tail[k]
                <= 0x5A) by {
                assert(tail[k] == q[k + 1]);
            }
            lemma_first_places(name, tail, from + 1, rest);
            assert(seq![from] + rest =~= at);
        } else {
            assert(!same_unit(name[from], q[0]));
            assert forall|i: int| #![trigger at[i]] 0 <= i < at.len() implies from + 1 <= at[i] by {
                if i > 0 {
                    assert(at[0] < at[i]);
                }
            }
            lemma_first_places(name, q, from + 1, at);
        }
    }
}

/// How many of some places begin a word.
pub open spec fn words_begun(name: Seq<u16>, at: Seq<int>) -> nat {
    at.filter(|p: int| begins_word(name, p)).len()
}

proof fn lemma_words_begun(name: Seq<u16>, at: Seq<int>)
    ensures
        words_begun(name, at) == matcher::word_starts(name, at),
        words_begun(name, at) <= at.len(),
        words_begun(name, at) == at.len() <==> forall|i: int| #![trigger at[i]]
            0 <= i < at.len() ==> begins_word(name, at[i]),
    decreases at.len(),
{
    reveal(Seq::filter);
    if at.len() > 0 {
        let rest = at.drop_last();
        lemma_words_begun(name, rest);
        law_word_starts(name, at.last());
        if words_begun(name, at) == at.len() {
            assert forall|i: int| #![trigger at[i]] 0 <= i < at.len() implies begins_word(
                name,
                at[i],
            ) by {
                if i < rest.len() {
                    assert(rest[i] == at[i]);
                }
            }
        }
        if forall|i: int| #![trigger at[i]] 0 <= i < at.len() ==> begins_word(name, at[i]) {
            assert forall|i: int| #![trigger rest[i]] 0 <= i < rest.len() implies begins_word(
                name,
                rest[i],
            ) by {
                assert(at[i] == rest[i]);
            }
            assert(begins_word(name, at[at.len() - 1]));
        }
    }
}

/// A query of two units or more hits a name loosely exactly if its units stand in it one after the
/// other.
pub proof fn law_loose_hit_exists(name: Seq<u16>, q: Seq<u16>)
    requires
        is_query(q),
    ensures
        matcher::fuzzy_hit(name, q) is Some <==> q.len() >= 2 && exists|at: Seq<int>|
            follows(name, q, at),
{
    if q.len() >= 2 {
        search_laws::law_fuzzy_iff_in_order(name, q);
        if exists|at: Seq<int>| follows(name, q, at) {
            let at = choose|at: Seq<int>| follows(name, q, at);
            lemma_follows(name, q, at);
        }
        if exists|at: Seq<int>| search_laws::embeds(name, q, at) {
            let at = choose|at: Seq<int>| search_laws::embeds(name, q, at);
            lemma_follows(name, q, at);
        }
    }
}

/// A loose hit goes from the first to the last place at which its units are met. Where each of them
/// begins a word it is an abbreviation and scores 8200, less 25 for each unit in between; otherwise it
/// scores 2200, with 60 more for each that begins a word, less 18 for each unit in between. It loses a
/// quarter of the name's length.
pub proof fn law_loose_hit(name: Seq<u16>, q: Seq<u16>, at: Seq<int>)
    requires
        is_query(q),
        q.len() >= 2,
        follows(name, q, at),
        takes_first(name, q, at),
    ensures
        matcher::fuzzy_hit(name, q) matches Some((score, start, end)) && {
            let between = at[at.len() - 1] - at[0] + 1 - at.len();
            let full = score + name.len() as int / 4;
            &&& start == at[0]
            &&& end == at[at.len() - 1] + 1
            &&& (forall|i: int| #![trigger at[i]]
                0 <= i < at.len() ==> begins_word(name, at[i])) ==> full == 8200 - 25 * between
            &&& (exists|i: int| #![trigger at[i]]
                0 <= i < at.len() && !begins_word(name, at[i])) ==> full == 2200 + 60 * words_begun(
                name,
                at,
            ) - 18 * between
        },
{
    lemma_first_places(name, q, 0, at);
    lemma_words_begun(name, at);
    if exists|i: int| #![trigger at[i]] 0 <= i < at.len() && !begins_word(name, at[i]) {
        let i = choose|i: int| #![trigger at[i]] 0 <= i < at.len() && !begins_word(name, at[i]);
        assert(!begins_word(name, at[i]));
    }
}

proof fn lemma_first_place_is(py: Seq<u16>, q: Seq<u16>, from: int, i: int)
    requires
        is_query(q),
        0 <= from <= i,
        stands(py, q, i),
        forall|j: int| #![trigger stands(py, q, j)] from <= j < i ==> !stands(py, q, j),
    ensures
        matcher::first_place(py, q, from) == Some(i),
    decreases i - from,
{
    lemma_stands(py, q, from);
    lemma_stands(py, q, i);
    if from < i {
        assert(!stands(py, q, from));
        lemma_first_place_is(py, q, from + 1, i);
    }
}

proof fn lemma_no_first_place(py: Seq<u16>, q: Seq<u16>, from: int)
    requires
        is_query(q),
        0 <= from,
        forall|j: int| #![trigger stands(py, q, j)] from <= j ==> !stands(py, q, j),
    ensures
        matcher::first_place(py, q, from) is None,
    decreases py.len() - from + 1,
{
    if from + q.len() <= py.len() {
        lemma_stands(py, q, from);
        assert(!stands(py, q, from));
        lemma_no_first_place(py, q, from + 1);
    }
}

/// A query that stands in a spelling scores by the first place at which it does: 6800 at the start,
/// elsewhere 3400 less one for each unit before it. It loses a quarter of the spelling's length.
pub proof fn law_spelling_as_a_part(py: Seq<u16>, q: Seq<u16>, i: int)
    requires
        is_query(q),
        q.len() > 0,
        stands(py, q, i),
        forall|j: int| #![trigger stands(py, q, j)] 0 <= j < i ==> !stands(py, q, j),
    ensures
        matcher::pinyin_score(py, q) matches Some(score) && {
            let full = score + py.len() as int / 4;
            &&& i == 0 ==> full == 6800
            &&& i > 0 ==> full == 3400 - i
        },
{
    lemma_first_place_is(py, q, 0, i);
}

/// A query of two units or more that does not stand in a spelling, but whose units follow each other
/// in it, scores as initials: 8500 less 40 for each unit in between where the first begins the
/// spelling, else 1600 less 20 for each. It loses a quarter of the spelling's length.
pub proof fn law_spelling_as_initials(py: Seq<u16>, q: Seq<u16>, at: Seq<int>)
    requires
        is_query(q),
        q.len() >= 2,
        forall|j: int| #![trigger stands(py, q, j)] !stands(py, q, j),
        follows(py, q, at),
        takes_first(py, q, at),
    ensures
        matcher::pinyin_score(py, q) matches Some(score) && {
            let between = at[at.len() - 1] - at[0] + 1 - at.len();
            let full = score + py.len() as int / 4;
            &&& at[0] == 0 ==> full == 8500 - 40 * between
            &&& at[0] > 0 ==> full == 1600 - 20 * between
        },
{
    lemma_no_first_place(py, q, 0);
    lemma_first_places(py, q, 0, at);
}

/// A query hits a spelling exactly if it stands in it or, with two units or more, if its units follow
/// each other in it.
pub proof fn law_spelling_hit_exists(py: Seq<u16>, q: Seq<u16>)
    requires
        is_query(q),
    ensures
        matcher::pinyin_score(py, q) is Some <==> q.len() > 0 && ((exists|i: int| stands(py, q, i))
            || q.len() >= 2 && exists|at: Seq<int>| follows(py, q, at)),
{
    if q.len() > 0 {
        if exists|i: int| stands(py, q, i) {
            let i = choose|i: int| stands(py, q, i);
            lemma_stands(py, q, i);
            search_laws::lemma_first_place_found(py, q, 0, i);
        } else {
            lemma_no_first_place(py, q, 0);
            if q.len() >= 2 {
                law_loose_hit_exists(py, q);
                assert(matcher::fuzzy_hit(py, q) is Some <==> matcher::places(py, q, 0) is Some);
            }
        }
    }
}

/// The name by which an entry is known: of an entry with bit 1 set, which holds a path, what follows
/// the last `\`.
pub open spec fn is_known_as(m: VolumeModel, e: Entry, name: Seq<u16>) -> bool {
    let held = m.name_of(e);
    if e.flags & 2 == 0 {
        name == held
    } else {
        &&& name.len() <= held.len()
        &&& name == held.skip(held.len() - name.len())
        &&& !name.contains(0x5C)
        &&& name.len() < held.len() ==> held[held.len() - name.len() - 1] == 0x5C
    }
}

/// The file name of a path is what stands behind its last `\`.
pub proof fn law_file_name(path: Seq<u16>)
    ensures
        ({
            let name = model::file_part(path);
            &&& name.len() <= path.len()
            &&& name == path.skip(path.len() - name.len())
            &&& !name.contains(0x5C)
            &&& name.len() < path.len() ==> path[path.len() - name.len() - 1] == 0x5C
        }),
    decreases path.len(),
{
    let name = model::file_part(path);
    if path.len() == 0 || path.last() == 0x5C {
        assert(name =~= path.skip(path.len() as int));
    } else {
        let rest = path.drop_last();
        law_file_name(rest);
        let part = model::file_part(rest);
        assert(name =~= path.skip(path.len() - name.len()));
        assert forall|i: int| 0 <= i < name.len() implies name[i] != 0x5C by {
            if i < part.len() {
                assert(part.contains(part[i]));
            }
        }
    }
}

/// An entry is known by one name only, and this is the one that is held against a query.
pub proof fn law_known_name(m: VolumeModel, e: Entry, name: Seq<u16>)
    ensures
        is_known_as(m, e, matcher::visible_name(m, e)),
        is_known_as(m, e, name) ==> name == matcher::visible_name(m, e),
{
    let held = m.name_of(e);
    let shown = matcher::visible_name(m, e);
    law_file_name(held);
    if is_known_as(m, e, name) && e.flags & 2 != 0 {
        if name.len() < shown.len() {
            let i = shown.len() - name.len() - 1;
            assert(shown[i] == held[held.len() - name.len() - 1]);
            assert(shown.contains(shown[i]));
        } else if name.len() > shown.len() {
            let i = name.len() - shown.len() - 1;
            assert(name[i] == held[held.len() - shown.len() - 1]);
            assert(name.contains(name[i]));
        }
    }
}

/// A name ends in `.exe` or `.lnk`, in letters of either case.
pub open spec fn ends_as_app(name: Seq<u16>) -> bool {
    let n = name.len() as int;
    &&& n >= 4
    &&& name[n - 4] == 0x2E
    &&& {
        ||| same_unit(name[n - 3], 0x65) && same_unit(name[n - 2], 0x78) && same_unit(name[n - 1], 0x65)
        ||| same_unit(name[n - 3], 0x6C) && same_unit(name[n - 2], 0x6E) && same_unit(name[n - 1], 0x6B)
    }
}

/// A name is that of an application exactly if it ends in `.exe` or `.lnk`.
pub proof fn law_app_names(name: Seq<u16>)
    ensures
        ends_as_app(name) <==> matcher::names_app(name),
{
    if name.len() >= 4 {
        let n = name.len() as int;
        let end = text::fold_units(name.skip(n - 4));
        let exe = seq![0x2Eu16, 0x65, 0x78, 0x65];
        let lnk = seq![0x2Eu16, 0x6C, 0x6E, 0x6B];
        assert(end.len() == 4);
        assert(end[0] == text::folded(name[n - 4]) && end[1] == text::folded(name[n - 3]) && end[2]
            == text::folded(name[n - 2]) && end[3] == text::folded(name[n - 1]));
        if end == exe {
            assert(end[0] == 0x2E && end[1] == 0x65 && end[2] == 0x78 && end[3] == 0x65);
        }
        if end == lnk {
            assert(end[0] == 0x2E && end[1] == 0x6C && end[2] == 0x6E && end[3] == 0x6B);
        }
        if ends_as_app(name) {
            assert(end =~= exe || end =~= lnk);
        }
    }
}

/// What the flags of an entry and the options make of the score of a hit: directories (bit 0), the
/// start menu (bit 3) and Chinese names (bit 4) gain what the options say; a system file (bit 2) loses
/// 3000, unless the options include them or the query begins with `$`.
pub open spec fn is_weighed(base: int, own: int, e: Entry, q: Seq<u16>, opts: SearchOptions) -> bool {
    own == base + (if e.flags & 1 != 0 {
        opts.dirs_penalty as int
    } else {
        0
    }) + (if e.flags & 8 != 0 {
        opts.start_menu_bonus as int
    } else {
        0
    }) + (if e.flags & 16 != 0 {
        opts.cjk_bonus as int
    } else {
        0
    }) - (if e.flags & 4 != 0 && !opts.include_system && q[0] != 0x24 {
        3000int
    } else {
        0
    })
}

/// What an application gains: six times the bonus from 7900 on, twice the bonus from 5300 on, and a
/// third of it, without its fraction, below that.
pub open spec fn is_app_gain(own: int, gain: int, bonus: int) -> bool {
    if own >= 7900 {
        gain == 6 * bonus
    } else if own >= 5300 {
        gain == 2 * bonus
    } else {
        &&& bonus >= 0 ==> 3 * gain <= bonus < 3 * gain + 3
        &&& bonus < 0 ==> 3 * gain - 3 < bonus <= 3 * gain
    }
}

/// The score by which a hit is ranked comes of the score of the hit.
pub open spec fn is_ranked(
    base: int,
    score: int,
    name: Seq<u16>,
    e: Entry,
    q: Seq<u16>,
    opts: SearchOptions,
) -> bool {
    exists|own: int| #![trigger is_weighed(base, own, e, q, opts)]
        is_weighed(base, own, e, q, opts) && if ends_as_app(name) {
            is_app_gain(own, score - own, opts.app_bonus as int)
        } else {
            score == own
        }
}

proof fn lemma_ranked(m: VolumeModel, e: Entry, q: Seq<u16>, opts: SearchOptions)
    ensures
        match (matcher::entry_hit(m, e, q), matcher::ranked_hit(m, e, q, opts)) {
            (Some((base, a, b)), Some((score, c, d))) => a == c && b == d && is_ranked(
                base,
                score,
                matcher::visible_name(m, e),
                e,
                q,
                opts,
            ),
            (None, None) => true,
            _ => false,
        },
{
    let name = matcher::visible_name(m, e);
    law_app_names(name);
    if matcher::entry_hit(m, e, q) is Some {
        let base = (matcher::entry_hit(m, e, q)->0).0;
        let own = matcher::entry_score(base, e, q, opts);
        assert(is_weighed(base, own, e, q, opts));
    }
}

/// An entry in whose name the query stands is found by it, with the score and the place of that hit.
pub proof fn law_found_by_name(
    m: VolumeModel,
    e: Entry,
    name: Seq<u16>,
    q: Seq<u16>,
    opts: SearchOptions,
    i: int,
)
    requires
        is_query(q),
        q.len() > 0,
        is_known_as(m, e, name),
        stands(name, q, i),
    ensures
        matcher::ranked_hit(m, e, q, opts) matches Some((score, start, end)) && matcher::name_hit(
            name,
            q,
        ) matches Some((base, a, b)) && start == a && end == b && is_ranked(
            base,
            score,
            name,
            e,
            q,
            opts,
        ),
{
    law_known_name(m, e, name);
    law_hit_on_a_part(name, q);
    lemma_ranked(m, e, q, opts);
}

/// An entry in whose name the query does not stand, but whose name holds the two to eight units of the
/// query one after the other, is found by it, with the score and the span of that hit.
pub proof fn law_found_loosely(
    m: VolumeModel,
    e: Entry,
    name: Seq<u16>,
    q: Seq<u16>,
    opts: SearchOptions,
    at: Seq<int>,
)
    requires
        is_query(q),
        2 <= q.len() <= 8,
        is_known_as(m, e, name),
        forall|i: int| #![trigger stands(name, q, i)] !stands(name, q, i),
        follows(name, q, at),
    ensures
        matcher::ranked_hit(m, e, q, opts) matches Some((score, start, end)) && matcher::fuzzy_hit(
            name,
            q,
        ) matches Some((base, a, b)) && start == a && end == b && is_ranked(
            base,
            score,
            name,
            e,
            q,
            opts,
        ),
{
    law_known_name(m, e, name);
    law_hit_on_a_part(name, q);
    law_loose_hit_exists(name, q);
    lemma_ranked(m, e, q, opts);
}

/// An entry with a spelling that a query of one to twenty units hits, whose name neither holds the
/// query nor, for two to eight units, its units one after the other, is found by it, with the score of
/// the hit on the spelling, and nothing of its name is marked.
pub proof fn law_found_by_spelling(
    m: VolumeModel,
    e: Entry,
    name: Seq<u16>,
    q: Seq<u16>,
    opts: SearchOptions,
)
    requires
        is_query(q),
        1 <= q.len() <= 20,
        is_known_as(m, e, name),
        forall|i: int| #![trigger stands(name, q, i)] !stands(name, q, i),
        2 <= q.len() <= 8 ==> forall|at: Seq<int>| #![trigger follows(name, q, at)]
            !follows(name, q, at),
        e.py_len > 0,
        matcher::pinyin_score(m.py_of(e), q) is Some,
    ensures
        matcher::ranked_hit(m, e, q, opts) matches Some((score, start, end)) && start == 0 && end == 0
            && is_ranked(matcher::pinyin_score(m.py_of(e), q)->0, score, name, e, q, opts),
{
    law_known_name(m, e, name);
    law_hit_on_a_part(name, q);
    law_loose_hit_exists(name, q);
    lemma_ranked(m, e, q, opts);
}

/// An entry whose spelling holds a query of one to twenty units is found by it.
pub proof fn law_spelling_finds(
    m: VolumeModel,
    e: Entry,
    q: Seq<u16>,
    opts: SearchOptions,
    i: int,
)
    requires
        is_query(q),
        1 <= q.len() <= 20,
        e.py_len > 0,
        stands(m.py_of(e), q, i),
    ensures
        matcher::ranked_hit(m, e, q, opts) is Some,
{
    law_spelling_hit_exists(m.py_of(e), q);
    lemma_ranked(m, e, q, opts);
}

/// An entry is not found by a query that does not stand in its name, whose units do not follow each
/// other in it or are not two to eight, and that has no spelling to hit or more than twenty units.
pub proof fn law_not_found(
    m: VolumeModel,
    e: Entry,
    name: Seq<u16>,
    q: Seq<u16>,
    opts: SearchOptions,
)
    requires
        is_query(q),
        q.len() > 0,
        is_known_as(m, e, name),
        forall|i: int| #![trigger stands(name, q, i)] !stands(name, q, i),
        2 <= q.len() <= 8 ==> forall|at: Seq<int>| #![trigger follows(name, q, at)]
            !follows(name, q, at),
        e.py_len == 0 || q.len() > 20 || matcher::pinyin_score(m.py_of(e), q) is None,
    ensures
        matcher::ranked_hit(m, e, q, opts) is None,
{
    law_known_name(m, e, name);
    law_hit_on_a_part(name, q);
    law_loose_hit_exists(name, q);
    lemma_ranked(m, e, q, opts);
}

proof fn lemma_places_are_first(name: Seq<u16>, q: Seq<u16>, from: int)
    requires
        is_query(q),
        0 <= from,
        matcher::places(name, q, from) is Some,
    ensures
        ({
            let at = matcher::places(name, q, from)->0;
            &&& q.len() > 0 ==> forall|p: int| #![trigger name[p]]
                from <= p < at[0] ==> !same_unit(name[p], q[0])
            &&& forall|i: int, p: int| #![trigger at[i], name[p]]
                0 < i < at.len() && at[i - 1] < p < at[i] ==> !same_unit(name[p], q[i])
        }),
    decreases name.len() - from,
{
    if q.len() > 0 {
        let at = matcher::places(name, q, from)->0;
        text_laws::law_folding(name[from], q[0]);
        text_laws::law_folding(q[0], q[0]);
        if text::folded(name[from]) == q[0] {
            let tail = q.drop_first();
            assert forall|k: int| #![trigger tail[k]] 0 <= k < tail.len() implies !(0x41 <= tail[k]
                <= 0x5A) by {
                assert(tail[k] == q[k + 1]);
            }
            lemma_places_are_first(name, tail, from + 1);
            let rest = matcher::places(name, tail, from + 1)->0;
            matcher::lemma_places(name, tail, from + 1);
            assert(at == seq![from] + rest);
            assert forall|i: int, p: int| #![trigger at[i], name[p]]
                0 < i < at.len() && at[i - 1] < p < at[i] implies !same_unit(name[p], q[i]) by {
                assert(at[i] == rest[i - 1]);
                assert(q[i] == tail[i - 1]);
                if i > 1 {
                    assert(at[i - 1] == rest[i - 2]);
                    assert(rest[(i - 1) - 1] < p < rest[i - 1]);
                } else {
                    assert(at[0] == from);
                    assert(from + 1 <= p < rest[0]);
                }
            }
        } else {
            lemma_places_are_first(name, q, from + 1);
        }
    }
}

/// Where the units of a query follow each other in a name at all, there are places at which each is
/// taken as early as can be.
pub proof fn law_first_places_exist(name: Seq<u16>, q: Seq<u16>, at: Seq<int>) -> (first: Seq<int>)
    requires
        is_query(q),
        q.len() >= 2,
        follows(name, q, at),
    ensures
        follows(name, q, first),
        takes_first(name, q, first),
{
    law_loose_hit_exists(name, q);
    let first = matcher::places(name, q, 0)->0;
    matcher::lemma_places(name, q, 0);
    lemma_places_are_first(name, q, 0);
    assert(search_laws::embeds(name, q, first));
    lemma_follows(name, q, first);
    first
}

/// An entry is shown in one of some results.
pub open spec fn is_shown(items: Seq<SearchResult>, v: int, s: int) -> bool {
    exists|i: int| #![trigger items[i]]
        0 <= i < items.len() && items[i].volume == v && items[i].slot == s
}

/// A search shows no more results than are wanted, in the order of their scores, each entry once, and
/// each with the score and the place of its hit. An entry that is hit and not shown has no higher
/// score than any that is, and as many are shown as are wanted.
pub proof fn law_search_shows_the_best(
    items: Seq<SearchResult>,
    volumes: Seq<VolumeModel>,
    q: Seq<u16>,
    opts: SearchOptions,
)
    requires
        matcher::answers(items, volumes, q, opts),
        opts.limit <= opts.top_k,
        forall|v: int| #![trigger volumes[v]] 0 <= v < volumes.len() ==> volumes[v].pools_ok(),
        volumes.len() <= usize::MAX,
        q.len() > 0,
        opts.fits(),
    ensures
        items.len() <= opts.limit,
        forall|i: int, j: int| #![trigger items[i], items[j]]
            0 <= i < j < items.len() ==> items[i].score >= items[j].score && (items[i].volume
                != items[j].volume || items[i].slot != items[j].slot),
        forall|i: int| #![trigger items[i]]
            0 <= i < items.len() ==> {
                let r = items[i];
                let m = volumes[r.volume as int];
                let e = m.entries[r.slot as int];
                &&& r.volume < volumes.len()
                &&& r.slot < m.entries.len()
                &&& matcher::ranked_hit(m, e, q, opts) == Some(
                    (r.score as int, r.match_start as int, r.match_start + r.match_len),
                )
            },
        forall|v: int, s: int| #![trigger volumes[v].entries[s]]
            0 <= v < volumes.len() && 0 <= s < volumes[v].entries.len() ==> (
            matcher::ranked_hit(volumes[v], volumes[v].entries[s], q, opts) matches Some((score, _, _))
                ==> is_shown(items, v, s) || items.len() == opts.limit && forall|i: int|
                #![trigger items[i]]
                0 <= i < items.len() ==> items[i].score >= score),
{
    search_laws::law_search_best(items, volumes, q, opts);
    let fulls = search_laws::all_hits(volumes, q, opts);
    let all = matcher::joined(fulls);
    let n = opts.limit as nat;
    let chosen = choose|chosen: Seq<Cand>|
        #![trigger matcher::shows_best(items, volumes, fulls, chosen, n)]
        matcher::shows_best(items, volumes, fulls, chosen, n);
    assert forall|i: int| #![trigger items[i]] 0 <= i < items.len() implies matcher::shows(
        items[i],
        volumes,
        chosen[i],
    ) && items[i].volume < volumes.len() && items[i].slot < volumes[items[i].volume as int].entries.len()
        && matcher::ranked_hit(
        volumes[items[i].volume as int],
        volumes[items[i].volume as int].entries[items[i].slot as int],
        q,
        opts,
    ) == Some(
        (
            items[i].score as int,
            items[i].match_start as int,
            items[i].match_start + items[i].match_len,
        ),
    ) by {
        search_laws::law_results_are_hits(items, volumes, q, opts, i);
    }
    assert forall|i: int, j: int| #![trigger items[i], items[j]]
        0 <= i < j < items.len() implies items[i].score >= items[j].score && (items[i].volume
        != items[j].volume || items[i].slot != items[j].slot) by {
        assert(matcher::shows(items[i], volumes, chosen[i]));
        assert(matcher::shows(items[j], volumes, chosen[j]));
        assert(chosen[i].score >= chosen[j].score);
        assert(chosen[i] != chosen[j]);
        if items[i].volume == items[j].volume && items[i].slot == items[j].slot {
            assert(items[i].score == items[j].score);
            assert(items[i].match_start == items[j].match_start);
            assert(items[i].match_len == items[j].match_len);
            assert(chosen[i].end == chosen[j].end);
        }
    }
    assert forall|v: int, s: int| #![trigger volumes[v].entries[s]]
        0 <= v < volumes.len() && 0 <= s < volumes[v].entries.len() implies (matcher::ranked_hit(
        volumes[v],
        volumes[v].entries[s],
        q,
        opts,
    ) matches Some((score, _, _)) ==> is_shown(items, v, s) || items.len() == opts.limit && forall|
        i: int,
    | #![trigger items[i]] 0 <= i < items.len() ==> items[i].score >= score) by {
        let m = volumes[v];
        let e = m.entries[s];
        if matcher::ranked_hit(m, e, q, opts) is Some {
            assert(m.pools_ok());
            matcher::lemma_score_fits(m, e, q, opts);
            let c = search_laws::lemma_hit_is_listed(m, v, m.entries, 0, q, opts, s);
            search_laws::lemma_joined_contains(fulls, c);
            assert(fulls[v].contains(c));
            assert(all.contains(c));
            if chosen.contains(c) {
                let i = choose|i: int| 0 <= i < chosen.len() && chosen[i] == c;
                assert(matcher::shows(items[i], volumes, chosen[i]));
                assert(items[i].volume == v && items[i].slot == s);
            } else {
                assert forall|i: int| #![trigger items[i]] 0 <= i < items.len() implies
                    items[i].score >= c.score by {
                    assert(matcher::shows(items[i], volumes, chosen[i]));
                    assert(chosen[i].score >= c.score);
                }
            }
        }
    }
}

/// A result shows its entry: by the name that it is known by, as a directory exactly where bit 0 of
/// its flags is set, and with its path, which an entry with bit 1 set holds itself.
pub proof fn law_result_shows_its_entry(
    r: SearchResult,
    volumes: Seq<VolumeModel>,
    c: Cand,
    name: Seq<u16>,
)
    requires
        matcher::shows(r, volumes, c),
        is_known_as(volumes[r.volume as int], volumes[r.volume as int].entries[r.slot as int], name),
    ensures
        ({
            let m = volumes[r.volume as int];
            let e = m.entries[r.slot as int];
            &&& r.name@ == text::utf16_lossy(name)
            &&& r.is_dir <==> e.flags & 1 != 0
            &&& e.flags & 2 != 0 ==> r.path@ == text::utf16_lossy(m.name_of(e))
            &&& e.flags & 2 == 0 ==> r.path@ == m.path(r.slot as int)
        }),
{
    law_known_name(volumes[c.volume as int], volumes[c.volume as int].entries[c.slot as int], name);
}

/// Slots of a volume that a query hits with at least a given score.
pub open spec fn are_hits(
    m: VolumeModel,
    slots: Seq<int>,
    q: Seq<u16>,
    opts: SearchOptions,
    score: int,
) -> bool {
    forall|k: int| #![trigger slots[k]]
        0 <= k < slots.len() ==> 0 <= slots[k] < m.entries.len() && (matcher::ranked_hit(
            m,
            m.entries[slots[k]],
            q,
            opts,
        ) matches Some((s, _, _)) && s >= score)
}

/// An entry that is hit and not shown has been left out for others: as many are shown as are wanted,
/// none with a lower score; or as many others of its own volume as each volume gives have no lower
/// score either.
pub proof fn law_search_leaves_out_for_others(
    items: Seq<SearchResult>,
    volumes: Seq<VolumeModel>,
    q: Seq<u16>,
    opts: SearchOptions,
    v: int,
    s: int,
)
    requires
        matcher::answers(items, volumes, q, opts),
        forall|k: int| #![trigger volumes[k]] 0 <= k < volumes.len() ==> volumes[k].pools_ok(),
        volumes.len() <= usize::MAX,
        q.len() > 0,
        opts.fits(),
        0 <= v < volumes.len(),
        0 <= s < volumes[v].entries.len(),
        matcher::ranked_hit(volumes[v], volumes[v].entries[s], q, opts) is Some,
        !is_shown(items, v, s),
    ensures
        ({
            let score = (matcher::ranked_hit(volumes[v], volumes[v].entries[s], q, opts)->0).0;
            ||| items.len() == opts.limit && forall|i: int| #![trigger items[i]]
                0 <= i < items.len() ==> items[i].score >= score
            ||| exists|slots: Seq<int>| #![trigger are_hits(volumes[v], slots, q, opts, score)]
                slots.len() == opts.top_k && slots.no_duplicates() && !slots.contains(s) && are_hits(
                    volumes[v],
                    slots,
                    q,
                    opts,
                    score,
                )
        }),
{
    let m = volumes[v];
    let score = (matcher::ranked_hit(m, m.entries[s], q, opts)->0).0;
    let (parts, chosen) = choose|parts: Seq<Seq<Cand>>, chosen: Seq<Cand>|
        #![trigger matcher::shows_best(items, volumes, parts, chosen, opts.limit as nat)]
        matcher::volume_tops(parts, volumes, q, opts) && matcher::shows_best(
            items,
            volumes,
            parts,
            chosen,
            opts.limit as nat,
        );
    assert(m.pools_ok());
    matcher::lemma_score_fits(m, m.entries[s], q, opts);
    let c = search_laws::lemma_hit_is_listed(m, v, m.entries, 0, q, opts, s);
    let hits = matcher::volume_hits(m, v, q, opts);
    assert(hits.contains(c));
    let part = parts[v];
    if part.contains(c) {
        search_laws::lemma_joined_contains(parts, c);
        assert(matcher::joined(parts).contains(c));
        if chosen.contains(c) {
            let i = choose|i: int| 0 <= i < chosen.len() && chosen[i] == c;
            assert(matcher::shows(items[i], volumes, chosen[i]));
            assert(items[i].volume == v && items[i].slot == s);
        }
        assert forall|i: int| #![trigger items[i]] 0 <= i < items.len() implies items[i].score
            >= score by {
            assert(matcher::shows(items[i], volumes, chosen[i]));
            assert(chosen[i].score >= c.score);
        }
    } else {
        let slots = Seq::new(part.len(), |k: int| part[k].slot as int);
        assert forall|k: int| 0 <= k < part.len() implies 0 <= #[trigger] slots[k] < m.entries.len()
            && (matcher::ranked_hit(m, m.entries[slots[k]], q, opts) matches Some((x, a, b)) && x
            == part[k].score && a == part[k].start && b == part[k].end) && part[k].score >= c.score
            && part[k].volume == v by {
            assert(hits.contains(part[k]));
            let h = choose|h: int| 0 <= h < hits.len() && hits[h] == part[k];
            search_laws::lemma_hit_source(m, v, m.entries, 0, q, opts, h);
        }
        assert forall|a: int, b: int| 0 <= a < slots.len() && 0 <= b < slots.len() && a != b implies
            slots[a] != slots[b] by {
            if slots[a] == slots[b] {
                assert(part[a] == part[b]);
            }
        }
        if slots.contains(s) {
            let k = choose|k: int| 0 <= k < slots.len() && slots[k] == s;
            let h = choose|h: int| 0 <= h < hits.len() && hits[h] == c;
            search_laws::lemma_hit_source(m, v, m.entries, 0, q, opts, h);
            assert(part[k] == c);
            assert(part.contains(part[k]));
        }
        assert(are_hits(m, slots, q, opts, score));
    }
}

/// Each volume gives no more results than it may, however many are wanted.
pub proof fn law_volume_gives_its_best(
    items: Seq<SearchResult>,
    volumes: Seq<VolumeModel>,
    q: Seq<u16>,
    opts: SearchOptions,
    v: int,
    at: Seq<int>,
)
    requires
        matcher::answers(items, volumes, q, opts),
        forall|k: int| #![trigger volumes[k]] 0 <= k < volumes.len() ==> volumes[k].pools_ok(),
        volumes.len() <= usize::MAX,
        q.len() > 0,
        opts.fits(),
        at.no_duplicates(),
        forall|k: int| #![trigger at[k]]
            0 <= k < at.len() ==> 0 <= at[k] < items.len() && items[at[k]].volume == v,
    ensures
        at.len() <= opts.top_k,
{
    let (parts, chosen) = choose|parts: Seq<Seq<Cand>>, chosen: Seq<Cand>|
        #![trigger matcher::shows_best(items, volumes, parts, chosen, opts.limit as nat)]
        matcher::volume_tops(parts, volumes, q, opts) && matcher::shows_best(
            items,
            volumes,
            parts,
            chosen,
            opts.limit as nat,
        );
    if at.len() > 0 {
        assert(0 <= at[0] < items.len());
        assert(matcher::shows(items[at[0]], volumes, chosen[at[0]]));
        let part = parts[v];
        let cands = Seq::new(at.len(), |k: int| chosen[at[k]]);
        assert forall|k: int| 0 <= k < cands.len() implies part.contains(#[trigger] cands[k]) by {
            let i = at[k];
            let c = chosen[i];
            assert(matcher::shows(items[i], volumes, c));
            assert(matcher::joined(parts).contains(chosen[i]));
            search_laws::lemma_joined_contains(parts, c);
            let w = choose|w: int| #![trigger parts[w]] 0 <= w < parts.len() && parts[w].contains(c);
            let j = choose|j: int| 0 <= j < parts[w].len() && parts[w][j] == c;
            let hits = matcher::volume_hits(volumes[w], w, q, opts);
            assert(hits.contains(parts[w][j]));
            let h = choose|h: int| 0 <= h < hits.len() && hits[h] == c;
            assert(volumes[w].pools_ok());
            search_laws::lemma_hit_source(volumes[w], w, volumes[w].entries, 0, q, opts, h);
        }
        assert forall|a: int, b: int| 0 <= a < cands.len() && 0 <= b < cands.len() && a != b implies
            cands[a] != cands[b] by {
            assert(at[a] != at[b]);
        }
        cands.unique_seq_to_set();
        assert(cands.to_set().subset_of(part.to_set())) by {
            assert forall|x: Cand| cands.to_set().contains(x) implies part.to_set().contains(x) by {
                let k = choose|k: int| 0 <= k < cands.len() && cands[k] == x;
                assert(part.contains(cands[k]));
            }
        }
        vstd::seq_lib::seq_to_set_is_finite(part);
        part.lemma_cardinality_of_set();
        vstd::set_lib::lemma_len_subset(cands.to_set(), part.to_set());
    }
}

/// The bits of an entry's flags.
pub proof fn law_flag_bits(flags: u16)
    ensures
        types::has_flag(flags, types::FLAG_IS_DIR) <==> flags & 1 != 0,
        types::has_flag(flags, types::FLAG_IS_PATH) <==> flags & 2 != 0,
        types::has_flag(flags, types::FLAG_IS_SYSTEM) <==> flags & 4 != 0,
        types::has_flag(flags, types::FLAG_START_MENU) <==> flags & 8 != 0,
        types::has_flag(flags, types::FLAG_IS_CJK) <==> flags & 16 != 0,
{
}

/// Unless they are told otherwise, searches show 50 results at most, of which each volume can give all,
/// and rank directories below files, and Chinese names, what is in the start menu and applications
/// above others.
pub proof fn law_usual_options()
    ensures
        ({
            let o = SearchOptions::usual();
            &&& o.limit == 50
            &&& o.limit <= o.top_k == 120
            &&& !o.include_system
            &&& o.dirs_penalty == -700
            &&& o.cjk_bonus == 400
            &&& o.start_menu_bonus == 1500
            &&& o.app_bonus == 450
        }),
{
}

/// With the usual options, a program whose name begins with the query is ranked above a folder of just
/// this name, unless the program's name is very long.
pub proof fn law_program_above_folder(
    m: VolumeModel,
    program: Entry,
    folder: Entry,
    name: Seq<u16>,
    q: Seq<u16>,
)
    requires
        is_query(q),
        q.len() > 0,
        is_known_as(m, program, name),
        program.flags & 1 == 0,
        program.flags & 4 == 0,
        program.flags & 8 == 0,
        program.flags & 16 == 0,
        stands(name, q, 0),
        ends_as_app(name),
        q.len() < name.len() <= 400,
        folder.flags & 1 != 0,
        folder.flags & 8 == 0,
        folder.flags & 16 == 0,
        is_known_as(m, folder, q),
        !ends_as_app(q),
    ensures
        matcher::ranked_hit(m, program, q, SearchOptions::usual()) matches Some((high, _, _))
            && matcher::ranked_hit(m, folder, q, SearchOptions::usual()) matches Some((low, _, _))
            && high > low,
{
    let opts = SearchOptions::usual();
    law_found_by_name(m, program, name, q, opts, 0);
    law_hit_on_a_part(name, q);
    assert forall|k: int| #![trigger q[k]] 0 <= k < q.len() implies same_unit(q[0 + k], q[k]) by {}
    assert(stands(q, q, 0));
    law_found_by_name(m, folder, q, q, opts, 0);
    law_hit_on_a_part(q, q);
}

/// Options within a hundred million either way never make a score overflow.
pub proof fn law_ordinary_options_fit(opts: SearchOptions)
    requires
        -100_000_000 <= opts.dirs_penalty <= 100_000_000,
        -100_000_000 <= opts.start_menu_bonus <= 100_000_000,
        -100_000_000 <= opts.cjk_bonus <= 100_000_000,
        -100_000_000 <= opts.app_bonus <= 100_000_000,
    ensures
        opts.fits(),
{
}

/// A search without a number of its own, and one with the highest of all, cannot be overtaken; any other
/// can.
pub proof fn law_searches_that_can_be_overtaken(current: &types::CancelGen, own: u64)
    ensures
        !matcher::can_be_overtaken(None),
        matcher::can_be_overtaken(Some((current, own))) <==> own < 0xFFFF_FFFF_FFFF_FFFF,
{
}

} // verus!
