//! Search: a scan of the entries in memory, graded scores, and the best hits over all cores.
//!
//! - The scan runs over the `entries` array and the pools, without an allocation per entry.
//! - Only ASCII letters are compared without regard to case.
//! - Every piece of the scan keeps a bounded selection, and the selections are merged, so that a
//!   query of one character does not blow up.
//! - A newer query cancels the scan.

use std::sync::atomic::Ordering;
use vstd::prelude::*;

use crate::index::{file_name_of, Index, VolumeIndex};
use crate::model;
use crate::model::VolumeModel;
use crate::par;
use crate::par::{map_chunks, map_items};
use crate::text;
use crate::text::{copy_str, fold, from_utf16_lossy, to_utf16};
use crate::topk;
use crate::topk::{merge, offer, Cand};
use crate::types;
use crate::types::{CancelGen, Entry, FLAG_IS_CJK, FLAG_IS_DIR, FLAG_IS_PATH, FLAG_IS_SYSTEM, FLAG_START_MENU};

verus! {

/// What separates words in a name.
pub open spec fn is_separator(c: u16) -> bool {
    c == 0x20 || c == 0x2D || c == 0x5F || c == 0x2E || c == 0x28 || c == 0x5B || c == 0x7B || c
        == 0x40 || c == 0x23 || c == 0x2B
}

/// Whether a word starts at a place in a name.
pub open spec fn starts_word(name: Seq<u16>, i: int) -> bool {
    i == 0 || is_separator(name[i - 1])
}

/// Whether a query stands at a place in a name, but for the case of ASCII letters.
pub open spec fn occurs_at(name: Seq<u16>, q: Seq<u16>, i: int) -> bool {
    0 <= i && i + q.len() <= name.len() && text::fold_units(name.subrange(i, i + q.len())) == q
}

/// The score of a hit at a place in a name that is longer than the query: the start of the name
/// counts most, then the start of a word; later places and longer names count less.
pub open spec fn place_score(name: Seq<u16>, i: int) -> int {
    (if i == 0 {
        8000
    } else if starts_word(name, i) {
        6000 - i * 4
    } else {
        4000 - i * 4
    }) - name.len() as int / 4
}

/// The query stands at this place, and of all such places it has the highest score; of equal ones
/// it is the first.
pub open spec fn is_best_place(name: Seq<u16>, q: Seq<u16>, i: int) -> bool {
    occurs_at(name, q, i) && forall|j: int| #![trigger occurs_at(name, q, j)]
        occurs_at(name, q, j) ==> place_score(name, j) < place_score(name, i) || place_score(
            name,
            j,
        ) == place_score(name, i) && i <= j
}

/// A hit: its score, its start and its end.
pub type Hit = (int, int, int);

/// The hit of a query as a part of a name.
pub open spec fn name_hit(name: Seq<u16>, q: Seq<u16>) -> Option<Hit> {
    if q.len() > 0 && exists|i: int| is_best_place(name, q, i) {
        let i = choose|i: int| is_best_place(name, q, i);
        Some(
            (
                if name.len() == q.len() {
                    10000
                } else {
                    place_score(name, i)
                },
                i,
                (i + q.len()) as int,
            ),
        )
    } else {
        None
    }
}

/// The earliest places, from a given one on, at which the units of the query follow each other in
/// the name.
pub open spec fn places(name: Seq<u16>, q: Seq<u16>, from: int) -> Option<Seq<int>>
    decreases name.len() - from,
{
    if q.len() == 0 {
        Some(seq![])
    } else if from < 0 || from >= name.len() {
        None
    } else if text::folded(name[from]) == q[0] {
        match places(name, q.drop_first(), from + 1) {
            Some(rest) => Some(seq![from] + rest),
            None => None,
        }
    } else {
        places(name, q, from + 1)
    }
}

/// How many of the places start a word.
pub open spec fn word_starts(name: Seq<u16>, at: Seq<int>) -> nat
    decreases at.len(),
{
    if at.len() == 0 {
        0
    } else {
        word_starts(name, at.drop_last()) + if starts_word(name, at.last()) {
            1nat
        } else {
            0
        }
    }
}

/// How many units lie between the hit units of a query.
pub open spec fn gaps(at: Seq<int>) -> int {
    at.last() - at.first() + 1 - at.len()
}

/// The hit of a query whose units occur in a name in order. Where each of them starts a word it is
/// an abbreviation and scores high; any other hit scores low, and lower the looser it is.
pub open spec fn fuzzy_hit(name: Seq<u16>, q: Seq<u16>) -> Option<Hit> {
    match places(name, q, 0) {
        Some(at) => if q.len() < 2 {
            None
        } else if word_starts(name, at) == q.len() {
            Some((8200 - gaps(at) * 25 - name.len() as int / 4, at.first(), at.last() + 1))
        } else {
            Some(
                (
                    2200 + word_starts(name, at) * 60 - gaps(at) * 18 - name.len() as int / 4,
                    at.first(),
                    at.last() + 1,
                ),
            )
        },
        None => None,
    }
}

/// The first place, from a given one on, at which a query stands in a name.
pub open spec fn first_place(name: Seq<u16>, q: Seq<u16>, from: int) -> Option<int>
    decreases name.len() - from + 1,
{
    if from < 0 || from + q.len() > name.len() {
        None
    } else if occurs_at(name, q, from) {
        Some(from)
    } else {
        first_place(name, q, from + 1)
    }
}

/// The score of a query on a pinyin spelling: as a part of it, or else as initials, which is the
/// stronger sign where they begin with the spelling itself.
pub open spec fn pinyin_score(py: Seq<u16>, q: Seq<u16>) -> Option<int> {
    if q.len() == 0 {
        None
    } else {
        match first_place(py, q, 0) {
            Some(i) => Some(
                (if i == 0 {
                    6800int
                } else {
                    3400
                }) - i - py.len() as int / 4,
            ),
            None => match places(py, q, 0) {
                Some(at) => if q.len() < 2 {
                    None
                } else if at.first() == 0 {
                    Some(8500 - gaps(at) * 40 - py.len() as int / 4)
                } else {
                    Some(1600 - gaps(at) * 20 - py.len() as int / 4)
                },
                None => None,
            },
        }
    }
}

/// Whether a name ends in `.exe` or `.lnk`.
pub open spec fn names_app(name: Seq<u16>) -> bool {
    let end = text::fold_units(name.skip(name.len() - 4));
    name.len() >= 4 && (end == seq![0x2Eu16, 0x65, 0x78, 0x65] || end == seq![
        0x2Eu16,
        0x6C,
        0x6E,
        0x6B,
    ])
}

proof fn lemma_occurs_units(name: Seq<u16>, q: Seq<u16>, i: int)
    requires
        0 <= i,
        i + q.len() <= name.len(),
    ensures
        occurs_at(name, q, i) <==> forall|k: int| #![trigger q[k]]
            0 <= k < q.len() ==> text::folded(name[i + k]) == q[k],
{
    let part = text::fold_units(name.subrange(i, i + q.len()));
    assert forall|k: int| 0 <= k < q.len() implies part[k] == text::folded(name[i + k]) by {}
    if occurs_at(name, q, i) {
        assert forall|k: int| #![trigger q[k]] 0 <= k < q.len() implies text::folded(name[i + k])
            == q[k] by {
            assert(part[k] == q[k]);
        }
    }
    if forall|k: int| #![trigger q[k]] 0 <= k < q.len() ==> text::folded(name[i + k]) == q[k] {
        assert(part =~= q);
    }
}

/// Whether a query stands at a place in a name.
fn stands_at(name: &[u16], q: &[u16], i: usize) -> (r: bool)
    requires
        i + q@.len() <= name@.len(),
    ensures
        r == occurs_at(name@, q@, i as int),
{
    proof {
        lemma_occurs_units(name@, q@, i as int);
    }
    let nlen: usize = name.len();
    for k in 0..q.len()
        invariant
            nlen == name@.len(),
            i + q@.len() <= nlen,
            forall|j: int| #![trigger q@[j]] 0 <= j < k ==> text::folded(name@[i + j]) == q@[j],
    {
        if fold(name[i + k]) != q[k] {
            assert(q@[k as int] != text::folded(name@[i + k]));
            return false;
        }
    }
    true
}

pub fn is_word_start(name: &[u16], i: usize) -> (r: bool)
    requires
        i <= name@.len(),
    ensures
        r == starts_word(name@, i as int),
{
    if i == 0 {
        return true;
    }
    let p = name[i - 1];
    p == 0x20 || p == 0x2D || p == 0x5F || p == 0x2E || p == 0x28 || p == 0x5B || p == 0x7B || p
        == 0x40 || p == 0x23 || p == 0x2B
}

proof fn lemma_best_unique(name: Seq<u16>, q: Seq<u16>, i: int, j: int)
    requires
        is_best_place(name, q, i),
        is_best_place(name, q, j),
    ensures
        i == j,
{
}

/// Looks for a query as a part of a name and scores it; yields score, start and end of the best
/// hit.
pub fn match_name(name: &[u16], q: &[u16]) -> (r: Option<(i32, u16, u16)>)
    requires
        name@.len() <= u16::MAX,
    ensures
        match r {
            Some((score, start, end)) => name_hit(name@, q@) == Some(
                (score as int, start as int, end as int),
            ),
            None => name_hit(name@, q@) is None,
        },
{
    let qlen: usize = q.len();
    let nlen: usize = name.len();
    if qlen == 0 || nlen < qlen {
        return None;
    }
    if nlen == qlen {
        if stands_at(name, q, 0) {
            assert(is_best_place(name@, q@, 0));
            proof {
                lemma_best_unique(name@, q@, 0, choose|i: int| is_best_place(name@, q@, i));
            }
            return Some((10000, 0, nlen as u16));
        }
        return None;
    }
    let mut best: Option<(i32, usize)> = None;
    let mut i: usize = 0;
    while i <= nlen - qlen
        invariant
            0 < qlen < nlen,
            qlen == q@.len(),
            nlen == name@.len(),
            nlen <= u16::MAX,
            i <= nlen - qlen + 1,
            match best {
                Some((score, at)) => {
                    &&& score == place_score(name@, at as int)
                    &&& at < i
                    &&& occurs_at(name@, q@, at as int)
                    &&& forall|j: int| #![trigger occurs_at(name@, q@, j)]
                        j < i && occurs_at(name@, q@, j) ==> place_score(name@, j) < score
                            || place_score(name@, j) == score && at <= j
                },
                None => forall|j: int| j < i ==> !#[trigger] occurs_at(name@, q@, j),
            },
        decreases nlen - i,
    {
        if stands_at(name, q, i) {
            let base: i32 = if i == 0 {
                8000
            } else if is_word_start(name, i) {
                6000 - (i as i32) * 4
            } else {
                4000 - (i as i32) * 4
            };
            let score: i32 = base - (nlen / 4) as i32;
            let better = match best {
                Some((s, _)) => score > s,
                None => true,
            };
            if better {
                best = Some((score, i));
            }
        }
        i = i + 1;
    }
    match best {
        Some((score, at)) => {
            proof {
                assert(is_best_place(name@, q@, at as int));
                lemma_best_unique(
                    name@,
                    q@,
                    at as int,
                    choose|i: int| is_best_place(name@, q@, i),
                );
            }
            Some((score, at as u16, (at + qlen) as u16))
        },
        None => None,
    }
}

/// Application file names: `.exe` or `.lnk`, ASCII letters of either case.
pub fn is_app_name(name: &[u16]) -> (r: bool)
    ensures
        r == names_app(name@),
{
    if name.len() < 4 {
        return false;
    }
    let n: usize = name.len();
    let a = fold(name[n - 3]);
    let b = fold(name[n - 2]);
    let c = fold(name[n - 1]);
    proof {
        let end = text::fold_units(name@.skip(n - 4));
        assert(end =~= seq![text::folded(name@[n - 4]), a, b, c]);
        assert(text::folded(name@[n - 4]) == 0x2E <==> name@[n - 4] == 0x2E);
        assert(end[0] == text::folded(name@[n - 4]) && end[1] == a && end[2] == b && end[3] == c);
        if end == seq![0x2Eu16, 0x65, 0x78, 0x65] {
            assert(end[0] == 0x2E && end[1] == 0x65 && end[2] == 0x78 && end[3] == 0x65);
        }
        if end == seq![0x2Eu16, 0x6C, 0x6E, 0x6B] {
            assert(end[0] == 0x2E && end[1] == 0x6C && end[2] == 0x6E && end[3] == 0x6B);
        }
        if a == 0x65 && b == 0x78 && c == 0x65 && name@[n - 4] == 0x2E {
            assert(end =~= seq![0x2Eu16, 0x65, 0x78, 0x65]);
        }
        if a == 0x6C && b == 0x6E && c == 0x6B && name@[n - 4] == 0x2E {
            assert(end =~= seq![0x2Eu16, 0x6C, 0x6E, 0x6B]);
        }
    }
    name[n - 4] == 0x2E && (a == 0x65 && b == 0x78 && c == 0x65 || a == 0x6C && b == 0x6E && c
        == 0x6B)
}

/// The places at which a query is traced stand in order in the name, and hold its units.
pub proof fn lemma_places(name: Seq<u16>, q: Seq<u16>, from: int)
    requires
        0 <= from,
    ensures
        places(name, q, from) matches Some(at) ==> {
            &&& at.len() == q.len()
            &&& forall|i: int| #![trigger at[i]]
                0 <= i < at.len() ==> from <= at[i] < name.len() && text::folded(name[at[i]])
                    == q[i]
            &&& forall|i: int, j: int| #![trigger at[i], at[j]]
                0 <= i < j < at.len() ==> at[i] < at[j]
        },
    decreases name.len() - from,
{
    if q.len() > 0 && from < name.len() {
        if text::folded(name[from]) == q[0] {
            lemma_places(name, q.drop_first(), from + 1);
        } else {
            lemma_places(name, q, from + 1);
        }
    }
}

pub proof fn lemma_increasing_spread(at: Seq<int>, i: int, j: int)
    requires
        0 <= i <= j < at.len(),
        forall|a: int, b: int| #![trigger at[a], at[b]] 0 <= a < b < at.len() ==> at[a] < at[b],
    ensures
        at[j] - at[i] >= j - i,
    decreases j - i,
{
    if i < j {
        lemma_increasing_spread(at, i, j - 1);
    }
}

/// Between the places of a query there is at least nothing, and at most the rest of the name.
pub proof fn lemma_gaps(name: Seq<u16>, q: Seq<u16>)
    ensures
        places(name, q, 0) matches Some(at) ==> q.len() > 0 ==> {
            &&& 0 <= gaps(at) <= name.len() - q.len()
            &&& 0 <= at.first() <= at.last() < name.len()
            &&& q.len() <= name.len()
        },
{
    lemma_places(name, q, 0);
    if places(name, q, 0) is Some && q.len() > 0 {
        let at = places(name, q, 0)->0;
        lemma_increasing_spread(at, 0, at.len() - 1);
        assert(at[0] >= 0);
        assert(at[at.len() - 1] < name.len());
    }
}

proof fn lemma_word_starts_bound(name: Seq<u16>, at: Seq<int>)
    ensures
        word_starts(name, at) <= at.len(),
    decreases at.len(),
{
    if at.len() > 0 {
        lemma_word_starts_bound(name, at.drop_last());
    }
}

/// Where a query was traced in a name.
struct Trace {
    first: usize,
    last: usize,
    /// How many of the places start a word.
    words: usize,
}

/// Finds the units of a query in a name, in order.
fn trace(name: &[u16], q: &[u16]) -> (r: Option<Trace>)
    requires
        q@.len() > 0,
    ensures
        match r {
            Some(t) => places(name@, q@, 0) matches Some(at) && t.first == at.first() && t.last
                == at.last() && t.words == word_starts(name@, at),
            None => places(name@, q@, 0) is None,
        },
{
    let nlen: usize = name.len();
    let qlen: usize = q.len();
    if nlen < qlen {
        proof {
            lemma_gaps(name@, q@);
        }
        return None;
    }
    let mut first: usize = 0;
    let mut last: usize = 0;
    let mut words: usize = 0;
    let mut qi: usize = 0;
    let ghost mut done: Seq<int> = seq![];
    assert(q@.skip(0) =~= q@);
    let mut i: usize = 0;
    while i < nlen && qi < qlen
        invariant
            i <= nlen,
            nlen == name@.len(),
            qlen == q@.len(),
            qi <= qlen,
            qlen > 0,
            done.len() == qi,
            qi > 0 ==> first == done.first() && last == done.last(),
            words == word_starts(name@, done),
            words <= qi,
            places(name@, q@, 0) == match places(name@, q@.skip(qi as int), i as int) {
                Some(rest) => Some(done + rest),
                None => None,
            },
        decreases nlen - i,
    {
        assert(q@.skip(qi as int)[0] == q@[qi as int]);
        if fold(name[i]) == q[qi] {
            if qi == 0 {
                first = i;
            }
            let ghost had = done;
            proof {
                done = done.push(i as int);
                assert(done.drop_last() =~= had);
                assert(q@.skip(qi as int).drop_first() =~= q@.skip(qi + 1));
                let rest = places(name@, q@.skip(qi + 1), i + 1);
                if rest is Some {
                    assert(had + (seq![i as int] + rest->0) =~= done + rest->0);
                }
            }
            if is_word_start(name, i) {
                words = words + 1;
            }
            last = i;
            qi = qi + 1;
        }
        i = i + 1;
    }
    if qi < qlen {
        assert(q@.skip(qi as int).len() > 0);
        return None;
    }
    assert(q@.skip(qi as int).len() == 0);
    assert(done + Seq::<int>::empty() =~= done);
    Some(Trace { first, last, words })
}

/// Looks for the units of a query in a name, in order (`chr` in `chrome`). A query made of the
/// first units of words (`pcl` for `Plain Craft Launcher`) is an abbreviation and scores high.
/// Yields score, start and end.
pub fn match_fuzzy(name: &[u16], q: &[u16]) -> (r: Option<(i32, u16, u16)>)
    requires
        name@.len() <= u16::MAX,
    ensures
        match r {
            Some((score, start, end)) => fuzzy_hit(name@, q@) == Some(
                (score as int, start as int, end as int),
            ),
            None => fuzzy_hit(name@, q@) is None,
        },
{
    if q.len() < 2 {
        return None;
    }
    let qlen: usize = q.len();
    let nlen: usize = name.len();
    match trace(name, q) {
        Some(t) => {
            proof {
                lemma_gaps(name@, q@);
                lemma_places(name@, q@, 0);
                lemma_word_starts_bound(name@, places(name@, q@, 0)->0);
            }
            let loose: i32 = (t.last - t.first + 1 - qlen) as i32;
            let long: i32 = (nlen / 4) as i32;
            if t.words == qlen {
                Some((8200 - loose * 25 - long, t.first as u16, (t.last + 1) as u16))
            } else {
                Some(
                    (
                        2200 + (t.words as i32) * 60 - loose * 18 - long,
                        t.first as u16,
                        (t.last + 1) as u16,
                    ),
                )
            }
        },
        None => None,
    }
}

/// Looks for a query in a pinyin spelling: as a part of it (`weixin`), or as initials (`wx`).
pub fn match_pinyin(py: &[u16], q: &[u16]) -> (r: Option<i32>)
    requires
        py@.len() <= u16::MAX,
    ensures
        match r {
            Some(score) => pinyin_score(py@, q@) == Some(score as int),
            None => pinyin_score(py@, q@) is None,
        },
{
    let qlen: usize = q.len();
    let plen: usize = py.len();
    if qlen == 0 {
        return None;
    }
    if plen < qlen {
        proof {
            lemma_gaps(py@, q@);
        }
        return None;
    }
    let mut i: usize = 0;
    while i <= plen - qlen
        invariant
            0 < qlen <= plen,
            qlen == q@.len(),
            plen == py@.len(),
            plen <= u16::MAX,
            i <= plen - qlen + 1,
            first_place(py@, q@, 0) == first_place(py@, q@, i as int),
        decreases plen - i,
    {
        if stands_at(py, q, i) {
            let base: i32 = if i == 0 {
                6800
            } else {
                3400
            };
            return Some(base - i as i32 - (plen / 4) as i32);
        }
        i = i + 1;
    }
    if qlen < 2 {
        return None;
    }
    match trace(py, q) {
        Some(t) => {
            proof {
                lemma_gaps(py@, q@);
                lemma_places(py@, q@, 0);
            }
            let loose: i32 = (t.last - t.first + 1 - qlen) as i32;
            let long: i32 = (plen / 4) as i32;
            if t.first == 0 {
                Some(8500 - loose * 40 - long)
            } else {
                Some(1600 - loose * 20 - long)
            }
        },
        None => None,
    }
}

pub struct SearchOptions {
    /// How many results are wanted.
    pub limit: usize,
    /// How many candidates each volume keeps, at least `limit`.
    pub top_k: usize,
    /// Whether `$` system files count like others; where not, they are ranked down, unless the
    /// query begins with `$`.
    pub include_system: bool,
    /// What is added to the score of a directory.
    pub dirs_penalty: i32,
    /// What is added to the score of an application (`.exe`, `.lnk`), by the score it has with all
    /// else counted: six times from 7900 on, which is where a hit at the start of a name stands,
    /// twice from 5300 on, for a hit at the start of a word or of a spelling, and a third below. So
    /// initials at the start of a spelling, and hits that other bonuses lift, gain six times too.
    pub app_bonus: i32,
    /// What is added to the score of a name with Chinese characters.
    pub cjk_bonus: i32,
    /// What is added to the score of entries in the start menu.
    pub start_menu_bonus: i32,
}

/// The lowest score of a hit, before the options count.
pub const LOWEST_SCORE: i32 = -2632203;

/// The highest score of a hit, before the options count.
pub const HIGHEST_SCORE: i32 = 10000;

/// A third, without its fraction.
pub open spec fn third(x: int) -> int {
    if x >= 0 {
        x / 3
    } else {
        -((-x) / 3)
    }
}

/// A number, or 0 where it is negative.
pub open spec fn positive(x: int) -> int {
    if x > 0 {
        x
    } else {
        0
    }
}

impl SearchOptions {
    /// The options that are used where none are given.
    pub open spec fn usual() -> SearchOptions {
        SearchOptions {
            limit: 50,
            top_k: 120,
            include_system: false,
            dirs_penalty: (-700) as i32,
            app_bonus: 450,
            cjk_bonus: 400,
            start_menu_bonus: 1500,
        }
    }

    /// With these options every score fits its type.
    pub open spec fn fits(self) -> bool {
        let up = HIGHEST_SCORE + positive(self.dirs_penalty as int) + positive(
            self.start_menu_bonus as int,
        ) + positive(self.cjk_bonus as int);
        let down = LOWEST_SCORE - positive(-self.dirs_penalty) - positive(-self.start_menu_bonus)
            - positive(-self.cjk_bonus);
        &&& i32::MIN <= self.app_bonus * 6 <= i32::MAX
        &&& up + positive(self.app_bonus * 6) <= i32::MAX
        &&& down - positive(-third(self.app_bonus as int)) >= i32::MIN
    }

    /// Whether with these options every score fits its type.
    pub fn are_fitting(&self) -> (r: bool)
        ensures
            r == self.fits(),
    {
        let dirs = self.dirs_penalty as i64;
        let menu = self.start_menu_bonus as i64;
        let cjk = self.cjk_bonus as i64;
        let app = self.app_bonus as i64 * 6;
        let up: i64 = HIGHEST_SCORE as i64 + above_zero(dirs) + above_zero(menu) + above_zero(cjk);
        let down: i64 = LOWEST_SCORE as i64 - above_zero(-dirs) - above_zero(-menu) - above_zero(
            -cjk,
        );
        let weak = third_of(self.app_bonus) as i64;
        app >= i32::MIN as i64 && app <= i32::MAX as i64 && up + above_zero(app) <= i32::MAX as i64
            && down - above_zero(-weak) >= i32::MIN as i64
    }
}

fn above_zero(x: i64) -> (r: i64)
    ensures
        r == positive(x as int),
{
    if x > 0 {
        x
    } else {
        0
    }
}

impl Clone for SearchOptions {
    fn clone(&self) -> (r: SearchOptions)
        ensures
            r == *self,
    {
        SearchOptions {
            limit: self.limit,
            top_k: self.top_k,
            include_system: self.include_system,
            dirs_penalty: self.dirs_penalty,
            app_bonus: self.app_bonus,
            cjk_bonus: self.cjk_bonus,
            start_menu_bonus: self.start_menu_bonus,
        }
    }
}

impl Default for SearchOptions {
    fn default() -> (r: SearchOptions)
        ensures
            r == SearchOptions::usual(),
            r.fits(),
    {
        SearchOptions {
            limit: 50,
            top_k: 120,
            include_system: false,
            dirs_penalty: -700,
            app_bonus: 450,
            cjk_bonus: 400,
            start_menu_bonus: 1500,
        }
    }
}

#[derive(Debug)]
pub struct SearchResult {
    pub volume: usize,
    pub slot: u32,
    pub score: i32,
    pub name: String,
    pub path: String,
    pub is_dir: bool,
    /// Start and length of the hit in the name, in UTF-16 units, for highlighting.
    pub match_start: u16,
    pub match_len: u16,
}

impl Clone for SearchResult {
    fn clone(&self) -> (r: SearchResult)
        ensures
            r.volume == self.volume,
            r.slot == self.slot,
            r.score == self.score,
            r.name@ == self.name@,
            r.path@ == self.path@,
            r.is_dir == self.is_dir,
            r.match_start == self.match_start,
            r.match_len == self.match_len,
    {
        SearchResult {
            volume: self.volume,
            slot: self.slot,
            score: self.score,
            name: copy_str(self.name.as_str()),
            path: copy_str(self.path.as_str()),
            is_dir: self.is_dir,
            match_start: self.match_start,
            match_len: self.match_len,
        }
    }
}

pub struct SearchOutcome {
    pub items: Vec<SearchResult>,
    /// The scan was overtaken by a newer query; there are no results.
    pub cancelled: bool,
}

/// How many entries one piece of the scan covers.
pub const CHUNK: usize = 16384;

/// The name of an entry that a query is held against: of a path entry, its file name.
pub open spec fn visible_name(m: VolumeModel, e: Entry) -> Seq<u16> {
    if types::has_flag(e.flags, FLAG_IS_PATH) {
        model::file_part(m.name_of(e))
    } else {
        m.name_of(e)
    }
}

/// The hit of a query on an entry: as a part of the name, else loosely on the name, else on the
/// pinyin spelling, which highlights nothing.
pub open spec fn entry_hit(m: VolumeModel, e: Entry, q: Seq<u16>) -> Option<Hit> {
    let name = visible_name(m, e);
    let loose = if 2 <= q.len() <= 8 {
        fuzzy_hit(name, q)
    } else {
        None
    };
    if name_hit(name, q) is Some {
        name_hit(name, q)
    } else if loose is Some {
        loose
    } else if e.py_len > 0 && q.len() <= 20 {
        match pinyin_score(m.py_of(e), q) {
            Some(score) => Some((score, 0, 0)),
            None => None,
        }
    } else {
        None
    }
}

/// The score of a hit before the bonus for applications.
pub open spec fn entry_score(score: int, e: Entry, q: Seq<u16>, opts: SearchOptions) -> int {
    score - (if types::has_flag(e.flags, FLAG_IS_SYSTEM) && !opts.include_system && q[0] != 0x24 {
        3000int
    } else {
        0
    }) + (if types::has_flag(e.flags, FLAG_IS_DIR) {
        opts.dirs_penalty as int
    } else {
        0
    }) + (if types::has_flag(e.flags, FLAG_START_MENU) {
        opts.start_menu_bonus as int
    } else {
        0
    }) + (if types::has_flag(e.flags, FLAG_IS_CJK) {
        opts.cjk_bonus as int
    } else {
        0
    })
}

/// The score with the bonus for applications.
pub open spec fn app_score(score: int, opts: SearchOptions) -> int {
    score + if score >= 7900 {
        opts.app_bonus * 6
    } else if score >= 5300 {
        opts.app_bonus * 2
    } else {
        third(opts.app_bonus as int)
    }
}

/// The hit of a query on an entry, with the score by which it is ranked.
pub open spec fn ranked_hit(
    m: VolumeModel,
    e: Entry,
    q: Seq<u16>,
    opts: SearchOptions,
) -> Option<Hit> {
    match entry_hit(m, e, q) {
        Some((score, start, end)) => {
            let own = entry_score(score, e, q, opts);
            Some(
                (
                    if names_app(visible_name(m, e)) {
                        app_score(own, opts)
                    } else {
                        own
                    },
                    start,
                    end,
                ),
            )
        },
        None => None,
    }
}

/// The candidates of a query among some entries, the first of which stands in slot `base`.
pub open spec fn hits(
    m: VolumeModel,
    volume: int,
    entries: Seq<Entry>,
    base: int,
    q: Seq<u16>,
    opts: SearchOptions,
) -> Seq<Cand>
    decreases entries.len(),
{
    if entries.len() == 0 {
        seq![]
    } else {
        let rest = hits(m, volume, entries.drop_last(), base, q, opts);
        match ranked_hit(m, entries.last(), q, opts) {
            Some((score, start, end)) => rest.push(
                Cand {
                    score: score as i32,
                    volume: volume as usize,
                    slot: (base + entries.len() - 1) as u32,
                    start: start as u16,
                    end: end as u16,
                },
            ),
            None => rest,
        }
    }
}

/// The candidates of a query on a volume.
pub open spec fn volume_hits(
    m: VolumeModel,
    volume: int,
    q: Seq<u16>,
    opts: SearchOptions,
) -> Seq<Cand> {
    hits(m, volume, m.entries, 0, q, opts)
}

/// Lists in a row.
pub open spec fn joined(parts: Seq<Seq<Cand>>) -> Seq<Cand>
    decreases parts.len(),
{
    if parts.len() == 0 {
        seq![]
    } else {
        joined(parts.drop_last()) + parts.last()
    }
}

/// A search result shows a candidate.
pub open spec fn shows(r: SearchResult, volumes: Seq<VolumeModel>, c: Cand) -> bool {
    let m = volumes[c.volume as int];
    let e = m.entries[c.slot as int];
    &&& c.volume < volumes.len()
    &&& c.slot < m.entries.len()
    &&& r.volume == c.volume
    &&& r.slot == c.slot
    &&& r.score == c.score
    &&& r.name@ == text::utf16_lossy(visible_name(m, e))
    &&& r.path@ == m.full_path(c.slot as int)
    &&& r.is_dir == types::has_flag(e.flags, FLAG_IS_DIR)
    &&& r.match_start == c.start
    &&& r.match_len == c.end - c.start
}

/// The results show the best candidates of some lists, in order of falling scores.
pub open spec fn shows_best(
    items: Seq<SearchResult>,
    volumes: Seq<VolumeModel>,
    parts: Seq<Seq<Cand>>,
    chosen: Seq<Cand>,
    limit: nat,
) -> bool {
    &&& topk::is_top(chosen, joined(parts), limit)
    &&& topk::by_score(chosen)
    &&& items.len() == chosen.len()
    &&& forall|i: int| #![trigger items[i]]
        0 <= i < items.len() ==> shows(items[i], volumes, chosen[i])
}

/// The lists hold the best candidates of each volume.
pub open spec fn volume_tops(
    parts: Seq<Seq<Cand>>,
    volumes: Seq<VolumeModel>,
    q: Seq<u16>,
    opts: SearchOptions,
) -> bool {
    &&& parts.len() == volumes.len()
    &&& forall|v: int| #![trigger parts[v]]
        0 <= v < parts.len() ==> topk::is_top(
            parts[v],
            volume_hits(volumes[v], v, q, opts),
            opts.top_k as nat,
        )
}

/// The results of a search: each volume gives its `top_k` best candidates, and of these the `limit`
/// best are shown.
pub open spec fn answers(
    items: Seq<SearchResult>,
    volumes: Seq<VolumeModel>,
    q: Seq<u16>,
    opts: SearchOptions,
) -> bool {
    exists|parts: Seq<Seq<Cand>>, chosen: Seq<Cand>|
        #![trigger shows_best(items, volumes, parts, chosen, opts.limit as nat)]
        volume_tops(parts, volumes, q, opts) && shows_best(
            items,
            volumes,
            parts,
            chosen,
            opts.limit as nat,
        )
}

/// Whether a search has been overtaken by a newer query: the current generation exceeds its own.
pub fn is_overtaken(current: u64, own: u64) -> (r: bool)
    ensures
        r == (current > own),
{
    current > own
}

/// Whether a newer query can overtake a search: the search has a generation, and another one can
/// exceed it.
pub open spec fn can_be_overtaken(cancel: Option<(&CancelGen, u64)>) -> bool {
    cancel matches Some((_, own)) && own < u64::MAX
}

/// Whether a search has been overtaken by now. What a generation that others advance holds is not
/// known here, only whether it can decide.
fn is_cancelled(cancel: Option<(&CancelGen, u64)>) -> (r: bool)
    ensures
        r ==> can_be_overtaken(cancel),
{
    match cancel {
        Some((current, own)) => is_overtaken(current.load(Ordering::Relaxed), own),
        None => false,
    }
}

proof fn lemma_file_part_len(path: Seq<u16>)
    ensures
        model::file_part(path).len() <= path.len(),
    decreases path.len(),
{
    if path.len() > 0 {
        lemma_file_part_len(path.drop_last());
    }
}

/// A hit lies within the bounds of a score, and its start before its end in the name.
proof fn lemma_hit_bounds(m: VolumeModel, e: Entry, q: Seq<u16>)
    requires
        m.name_in_pool(e),
        e.py_len > 0 ==> m.py_in_pool(e),
        q.len() > 0,
    ensures
        entry_hit(m, e, q) matches Some((score, start, end)) ==> {
            &&& LOWEST_SCORE + 3000 <= score <= HIGHEST_SCORE
            &&& 0 <= start <= end <= u16::MAX
        },
{
    let name = visible_name(m, e);
    lemma_file_part_len(m.name_of(e));
    if name_hit(name, q) is Some {
        let i = choose|i: int| is_best_place(name, q, i);
        assert(occurs_at(name, q, i));
    } else {
        lemma_gaps(name, q);
        if places(name, q, 0) is Some {
            lemma_places(name, q, 0);
            lemma_word_starts_bound(name, places(name, q, 0)->0);
        }
        if e.py_len > 0 {
            lemma_gaps(m.py_of(e), q);
            lemma_first_place(m.py_of(e), q, 0);
        }
    }
}

proof fn lemma_first_place(name: Seq<u16>, q: Seq<u16>, from: int)
    requires
        0 <= from,
    ensures
        first_place(name, q, from) matches Some(i) ==> from <= i && occurs_at(name, q, i),
    decreases name.len() - from + 1,
{
    if from + q.len() <= name.len() && !occurs_at(name, q, from) {
        lemma_first_place(name, q, from + 1);
    }
}

/// The score by which a hit is ranked fits its type.
pub proof fn lemma_score_fits(m: VolumeModel, e: Entry, q: Seq<u16>, opts: SearchOptions)
    requires
        m.name_in_pool(e),
        e.py_len > 0 ==> m.py_in_pool(e),
        q.len() > 0,
        opts.fits(),
    ensures
        ranked_hit(m, e, q, opts) matches Some((score, start, end)) ==> {
            &&& i32::MIN <= score <= i32::MAX
            &&& 0 <= start <= end <= u16::MAX
        },
{
    lemma_hit_bounds(m, e, q);
}

/// A third of a number, without its fraction.
fn third_of(x: i32) -> (r: i32)
    ensures
        r == third(x as int),
{
    if x >= 0 {
        x / 3
    } else {
        let y: i64 = -(x as i64) / 3;
        (-y) as i32
    }
}

/// The name of an entry, without the directories of a path.
fn shown_name<'a>(v: &'a VolumeIndex, e: &Entry) -> (r: &'a [u16])
    requires
        v@.name_in_pool(*e),
    ensures
        r@ == visible_name(v@, *e),
        r@.len() <= u16::MAX,
{
    proof {
        lemma_file_part_len(v@.name_of(*e));
    }
    let full = v.name_slice(e);
    if e.is_path_entry() {
        file_name_of(full)
    } else {
        full
    }
}

/// Holds a query against one entry: yields its score, and start and end of the hit in the name.
fn hit_of(v: &VolumeIndex, e: &Entry, name: &[u16], q: &[u16]) -> (r: Option<(i32, u16, u16)>)
    requires
        e.py_len > 0 ==> v@.py_in_pool(*e),
        name@ == visible_name(v@, *e),
        name@.len() <= u16::MAX,
        q@.len() > 0,
    ensures
        match r {
            Some((score, start, end)) => entry_hit(v@, *e, q@) == Some(
                (score as int, start as int, end as int),
            ),
            None => entry_hit(v@, *e, q@) is None,
        },
{
    if let Some(hit) = match_name(name, q) {
        return Some(hit);
    }
    if q.len() >= 2 && q.len() <= 8 {
        if let Some(hit) = match_fuzzy(name, q) {
            return Some(hit);
        }
    }
    if !e.has_py() || q.len() > 20 {
        return None;
    }
    match match_pinyin(v.py_slice(e), q) {
        Some(score) => Some((score, 0, 0)),
        None => None,
    }
}

/// Holds a query against one entry: yields the score by which it is ranked, and start and end of
/// the hit in the name.
fn match_entry(v: &VolumeIndex, e: &Entry, q: &[u16], opts: &SearchOptions) -> (r: Option<
    (i32, u16, u16),
>)
    requires
        v@.name_in_pool(*e),
        e.py_len > 0 ==> v@.py_in_pool(*e),
        q@.len() > 0,
        opts.fits(),
    ensures
        match r {
            Some((score, start, end)) => ranked_hit(v@, *e, q@, *opts) == Some(
                (score as int, start as int, end as int),
            ),
            None => ranked_hit(v@, *e, q@, *opts) is None,
        },
{
    let name = shown_name(v, e);
    let (base, start, end) = match hit_of(v, e, name, q) {
        Some(hit) => hit,
        None => {
            return None;
        },
    };
    proof {
        lemma_hit_bounds(v@, *e, q@);
    }
    let mut score: i32 = base;
    if e.is_system() && !opts.include_system && q[0] != 0x24 {
        score = score - 3000;
    }
    if e.is_dir() {
        score = score + opts.dirs_penalty;
    }
    if e.is_start_menu() {
        score = score + opts.start_menu_bonus;
    }
    if e.is_cjk() {
        score = score + opts.cjk_bonus;
    }
    if is_app_name(name) {
        let bonus: i32 = if score >= 7900 {
            opts.app_bonus * 6
        } else if score >= 5300 {
            opts.app_bonus * 2
        } else {
            third_of(opts.app_bonus)
        };
        score = score + bonus;
    }
    Some((score, start, end))
}

/// The candidates among entries come from their slots, each slot at most once.
pub proof fn lemma_hits(
    m: VolumeModel,
    volume: int,
    entries: Seq<Entry>,
    base: int,
    q: Seq<u16>,
    opts: SearchOptions,
)
    requires
        0 <= base,
        base + entries.len() <= u32::MAX,
        0 <= volume <= usize::MAX,
    ensures
        forall|i: int| #![trigger hits(m, volume, entries, base, q, opts)[i]]
            0 <= i < hits(m, volume, entries, base, q, opts).len() ==> {
                let c = hits(m, volume, entries, base, q, opts)[i];
                c.volume == volume && base <= c.slot < base + entries.len()
            },
        hits(m, volume, entries, base, q, opts).no_duplicates(),
    decreases entries.len(),
{
    if entries.len() > 0 {
        lemma_hits(m, volume, entries.drop_last(), base, q, opts);
    }
}

/// The candidates among entries in two pieces.
proof fn lemma_hits_concat(
    m: VolumeModel,
    volume: int,
    a: Seq<Entry>,
    b: Seq<Entry>,
    base: int,
    q: Seq<u16>,
    opts: SearchOptions,
)
    ensures
        hits(m, volume, a + b, base, q, opts) == hits(m, volume, a, base, q, opts) + hits(
            m,
            volume,
            b,
            (base + a.len()) as int,
            q,
            opts,
        ),
    decreases b.len(),
{
    if b.len() == 0 {
        assert(a + b =~= a);
        assert(hits(m, volume, a, base, q, opts) + Seq::<Cand>::empty() =~= hits(
            m,
            volume,
            a,
            base,
            q,
            opts,
        ));
    } else {
        lemma_hits_concat(m, volume, a, b.drop_last(), base, q, opts);
        assert((a + b).drop_last() =~= a + b.drop_last());
        assert((a + b).last() == b.last());
        let left = hits(m, volume, a, base, q, opts);
        let right = hits(m, volume, b.drop_last(), (base + a.len()) as int, q, opts);
        assert forall|c: Cand| (left + right).push(c) =~= left + right.push(c) by {}
    }
}

/// Scans a piece of the entries of a volume, of which the first stands in slot `base_slot`, and
/// keeps the `top_k` candidates that rank highest.
fn scan_chunk(
    v: &VolumeIndex,
    volume: usize,
    entries: &[Entry],
    base_slot: u32,
    q: &[u16],
    opts: &SearchOptions,
    top_k: usize,
) -> (r: Vec<Cand>)
    requires
        forall|i: int| #![trigger entries@[i]]
            0 <= i < entries@.len() ==> v@.name_in_pool(entries@[i]) && (entries@[i].py_len > 0
                ==> v@.py_in_pool(entries@[i])),
        base_slot + entries@.len() <= u32::MAX,
        q@.len() > 0,
        opts.fits(),
    ensures
        topk::is_top_ranked(
            r@,
            hits(v@, volume as int, entries@, base_slot as int, q@, *opts),
            top_k as nat,
        ),
{
    let mut sel: Vec<Cand> = Vec::new();
    let ghost mut all: Seq<Cand> = seq![];
    assert(entries@.take(0) =~= seq![]);
    for i in 0..entries.len()
        invariant
            forall|i: int| #![trigger entries@[i]]
                0 <= i < entries@.len() ==> v@.name_in_pool(entries@[i]) && (entries@[i].py_len > 0
                    ==> v@.py_in_pool(entries@[i])),
            base_slot + entries@.len() <= u32::MAX,
            q@.len() > 0,
            opts.fits(),
            all == hits(
                v@,
                volume as int,
                entries@.take(i as int),
                base_slot as int,
                q@,
                *opts,
            ),
            topk::is_top_ranked(sel@, all, top_k as nat),
    {
        let e = entries[i];
        assert(entries@[i as int] == e);
        assert(entries@.take(i + 1).drop_last() =~= entries@.take(i as int));
        proof {
            lemma_hits(
                v@,
                volume as int,
                entries@.take(i as int),
                base_slot as int,
                q@,
                *opts,
            );
        }
        if let Some((score, start, end)) = match_entry(v, &e, q, opts) {
            let c = Cand { score, volume, slot: base_slot + i as u32, start, end };
            offer(&mut sel, c, top_k, Ghost(all));
            proof {
                all = all.push(c);
            }
        }
    }
    assert(entries@.take(entries@.len() as int) =~= entries@);
    sel
}

/// The candidates that a scan has kept; none where it was given up.
pub struct Scan {
    pub cands: Vec<Cand>,
    /// The scan was not given up.
    pub complete: bool,
}

/// What a scan needs.
spec fn scan_ready(v: &VolumeIndex, q: Seq<u16>, opts: &SearchOptions) -> bool {
    v@.pools_ok() && q.len() > 0 && opts.fits()
}

/// The entries are the `i`th piece of those of a volume.
spec fn is_piece(entries: Seq<Entry>, i: int, piece: Seq<Entry>) -> bool {
    0 <= i && i < par::chunk_count(entries.len(), CHUNK as nat) && piece == par::chunk_at(
        entries,
        CHUNK as int,
        i,
    )
}

/// The candidates are those of the `i`th piece that rank highest.
spec fn piece_tops(
    sel: Seq<Cand>,
    m: VolumeModel,
    volume: int,
    i: int,
    piece: Seq<Entry>,
    q: Seq<u16>,
    opts: &SearchOptions,
) -> bool {
    topk::is_top_ranked(sel, hits(m, volume, piece, i * CHUNK, q, *opts), opts.top_k as nat)
}

/// Scans the `i`th piece of the entries of a volume, unless the search has been overtaken.
fn scan_piece(
    v: &VolumeIndex,
    volume: usize,
    i: usize,
    piece: &[Entry],
    q: &[u16],
    opts: &SearchOptions,
    cancel: Option<(&CancelGen, u64)>,
) -> (r: Scan)
    requires
        scan_ready(v, q@, opts),
        is_piece(v@.entries, i as int, piece@),
    ensures
        r.complete ==> piece_tops(r.cands@, v@, volume as int, i as int, piece@, q@, opts),
        !can_be_overtaken(cancel) ==> r.complete,
{
    if is_cancelled(cancel) {
        return Scan { cands: Vec::new(), complete: false };
    }
    proof {
        par::lemma_chunk_count(v@.entries.len(), CHUNK as nat, i as nat);
    }
    assert forall|k: int| #![trigger piece@[k]] 0 <= k < piece@.len() implies v@.name_in_pool(
        piece@[k],
    ) && (piece@[k].py_len > 0 ==> v@.py_in_pool(piece@[k])) by {
        assert(piece@[k] == v@.entries[i * CHUNK + k]);
    }
    let cands = scan_chunk(v, volume, piece, (i * CHUNK) as u32, q, opts, opts.top_k);
    Scan { cands, complete: true }
}

/// The scan of a volume holds its best candidates, or it was given up and holds nothing.
spec fn scan_or_nothing(
    scan: Scan,
    v: &VolumeIndex,
    volume: int,
    q: Seq<u16>,
    opts: &SearchOptions,
    uncancelled: bool,
) -> bool {
    &&& topk::by_score(scan.cands@)
    &&& if scan.complete {
        topk::is_top(scan.cands@, volume_hits(v@, volume, q, *opts), opts.top_k as nat)
    } else {
        scan.cands@.len() == 0 && !uncancelled
    }
}

/// Scans a volume, its pieces in parallel, and keeps its `top_k` best candidates. The scan is given
/// up at the next piece once the search has been overtaken.
fn scan_volume(
    v: &VolumeIndex,
    volume: usize,
    q: &[u16],
    opts: &SearchOptions,
    cancel: Option<(&CancelGen, u64)>,
) -> (r: Scan)
    requires
        scan_ready(v, q@, opts),
    ensures
        scan_or_nothing(r, v, volume as int, q@, opts, !can_be_overtaken(cancel)),
{
    if is_cancelled(cancel) {
        return Scan { cands: Vec::new(), complete: false };
    }
    let n: usize = v.entries.len();
    let ghost entries = v@.entries;
    let scan = |i: usize, piece: &[Entry]| -> (sel: Scan)
        requires
            scan_ready(v, q@, opts),
            is_piece(v@.entries, i as int, piece@),
        ensures
            sel.complete ==> piece_tops(
                sel.cands@,
                v@,
                volume as int,
                i as int,
                piece@,
                q@,
                opts,
            ),
            !can_be_overtaken(cancel) ==> sel.complete,
        { scan_piece(v, volume, i, piece, q, opts, cancel) };
    let parts = map_chunks(v.entries.as_slice(), CHUNK, scan);
    proof {
        assert forall|j: int| #![trigger parts@[j]] 0 <= j < parts@.len() implies (!can_be_overtaken(
            cancel,
        ) ==> parts@[j].complete) && (parts@[j].complete ==> piece_tops(
            parts@[j].cands@,
            v@,
            volume as int,
            j,
            par::chunk_at(entries, CHUNK as int, j),
            q@,
            opts,
        )) by {
            let k = j as usize;
            assert(parts@[k as int] == parts@[j]);
        }
    }
    let mut best: Vec<Cand> = Vec::new();
    assert(entries.take(0) =~= seq![]);
    assert(volume_hits(v@, volume as int, q@, *opts) == hits(
        v@,
        volume as int,
        entries,
        0,
        q@,
        *opts,
    ));
    for i in 0..parts.len()
        invariant
            n == entries.len(),
            entries == v@.entries,
            n <= u32::MAX,
            parts@.len() == par::chunk_count(entries.len(), CHUNK as nat),
            forall|j: int| #![trigger parts@[j]]
                0 <= j < parts@.len() ==> (!can_be_overtaken(cancel) ==> parts@[j].complete) && (
                parts@[j].complete ==> piece_tops(
                    parts@[j].cands@,
                    v@,
                    volume as int,
                    j,
                    par::chunk_at(entries, CHUNK as int, j),
                    q@,
                    opts,
                )),
            topk::by_score(best@),
            topk::is_top(
                best@,
                hits(
                    v@,
                    volume as int,
                    entries.take(
                        if i * CHUNK < n {
                            i * CHUNK
                        } else {
                            n as int
                        },
                    ),
                    0,
                    q@,
                    *opts,
                ),
                opts.top_k as nat,
            ),
    {
        assert(parts@[i as int].complete || can_be_overtaken(cancel));
        if !parts[i].complete {
            return Scan { cands: Vec::new(), complete: false };
        }
        let ghost done = entries.take(i * CHUNK);
        let ghost next = par::chunk_at(entries, CHUNK as int, i as int);
        let ghost a = hits(v@, volume as int, done, 0, q@, *opts);
        let ghost b = hits(v@, volume as int, next, i * CHUNK, q@, *opts);
        proof {
            par::lemma_chunk_count(entries.len(), CHUNK as nat, i as nat);
            topk::lemma_ranked_is_top(parts@[i as int].cands@, b, opts.top_k as nat);
            lemma_hits(v@, volume as int, done, 0, q@, *opts);
            lemma_hits(v@, volume as int, next, i * CHUNK, q@, *opts);
            topk::lemma_disjoint(best@, parts@[i as int].cands@, a, b);
        }
        let merged = merge(best.as_slice(), parts[i].cands.as_slice(), opts.top_k);
        proof {
            topk::lemma_top_of_tops(
                a,
                b,
                best@,
                parts@[i as int].cands@,
                merged@,
                opts.top_k as nat,
                opts.top_k as nat,
                opts.top_k as nat,
            );
            lemma_hits_concat(v@, volume as int, done, next, 0, q@, *opts);
            assert(done + next =~= entries.take(
                if (i + 1) * CHUNK < n {
                    (i + 1) * CHUNK
                } else {
                    n as int
                },
            ));
        }
        best = merged;
    }
    proof {
        par::lemma_chunk_count(entries.len(), CHUNK as nat, parts@.len());
        assert(entries.take(n as int) =~= entries);
    }
    Scan { cands: best, complete: true }
}

/// Builds what is shown of a candidate.
fn result_of(index: &Index, c: &Cand) -> (r: SearchResult)
    requires
        c.volume < index@.len(),
        index@[c.volume as int].pools_ok(),
        c.slot < index@[c.volume as int].entries.len(),
        c.start <= c.end,
    ensures
        shows(r, index@, *c),
{
    let v = &index.volumes[c.volume];
    assert(index@[c.volume as int] == v@);
    let e = v.entries[c.slot as usize];
    assert(v@.name_in_pool(v@.entries[c.slot as int]));
    let full = v.name_slice(&e);
    let (name, path) = if e.is_path_entry() {
        (from_utf16_lossy(file_name_of(full)), from_utf16_lossy(full))
    } else {
        (from_utf16_lossy(full), v.path_for_slot(c.slot))
    };
    SearchResult {
        volume: c.volume,
        slot: c.slot,
        score: c.score,
        name,
        path,
        is_dir: e.is_dir(),
        match_start: c.start,
        match_len: c.end - c.start,
    }
}

/// The candidates of each list are those of one volume, in order of falling scores, and stand for
/// entries of it.
pub open spec fn parts_ok(parts: Seq<Seq<Cand>>, volumes: Seq<VolumeModel>) -> bool {
    &&& parts.len() == volumes.len()
    &&& forall|v: int| #![trigger parts[v]]
        0 <= v < parts.len() ==> topk::by_score(parts[v]) && parts[v].no_duplicates() && forall|
            i: int,
        | #![trigger parts[v][i]]
            0 <= i < parts[v].len() ==> {
                let c = parts[v][i];
                c.volume == v && c.slot < volumes[v].entries.len() && c.start <= c.end
            }
}

/// The lists of candidates of some scans.
pub open spec fn lists(parts: Seq<Scan>) -> Seq<Seq<Cand>> {
    parts.map_values(|p: Scan| p.cands@)
}

proof fn lemma_joined(parts: Seq<Seq<Cand>>, volumes: Seq<VolumeModel>, n: int)
    requires
        parts_ok(parts, volumes),
        0 <= n <= parts.len(),
    ensures
        joined(parts.take(n)).no_duplicates(),
        forall|i: int| #![trigger joined(parts.take(n))[i]]
            0 <= i < joined(parts.take(n)).len() ==> {
                let c = joined(parts.take(n))[i];
                c.volume < n && c.slot < volumes[c.volume as int].entries.len() && c.start <= c.end
            },
    decreases n,
{
    if n > 0 {
        lemma_joined(parts, volumes, n - 1);
        let rest = joined(parts.take(n - 1));
        let last = parts[n - 1];
        assert(parts.take(n).drop_last() =~= parts.take(n - 1));
        assert(parts.take(n).last() == last);
        let all = rest + last;
        assert forall|i: int, j: int| 0 <= i < all.len() && 0 <= j < all.len() && i != j implies
            all[i] != all[j] by {
            if i < rest.len() && j >= rest.len() {
                assert(rest[i].volume < n - 1);
                assert(last[j - rest.len()].volume == n - 1);
            } else if j < rest.len() && i >= rest.len() {
                assert(rest[j].volume < n - 1);
                assert(last[i - rest.len()].volume == n - 1);
            } else if i >= rest.len() {
                assert(last[i - rest.len()] != last[j - rest.len()]);
            } else {
                assert(rest[i] != rest[j]);
            }
        }
    }
}

/// Merges the candidates of all volumes and builds the results of the `limit` best.
pub fn gather(index: &Index, parts: &[Scan], limit: usize) -> (r: Vec<SearchResult>)
    requires
        forall|v: int| #![trigger index@[v]] 0 <= v < index@.len() ==> index@[v].pools_ok(),
        parts_ok(lists(parts@), index@),
    ensures
        exists|chosen: Seq<Cand>|
            #![trigger shows_best(r@, index@, lists(parts@), chosen, limit as nat)]
            shows_best(r@, index@, lists(parts@), chosen, limit as nat),
{
    let ghost all = lists(parts@);
    let mut best: Vec<Cand> = Vec::new();
    assert(all.take(0) =~= seq![]);
    for v in 0..parts.len()
        invariant
            all == lists(parts@),
            parts_ok(all, index@),
            topk::by_score(best@),
            topk::is_top(best@, joined(all.take(v as int)), limit as nat),
    {
        let ghost rest = joined(all.take(v as int));
        let ghost last = parts@[v as int].cands@;
        proof {
            assert(all[v as int] == last);
            lemma_joined(all, index@, v as int);
            lemma_joined(all, index@, v + 1);
            assert(all.take(v + 1).drop_last() =~= all.take(v as int));
            assert(all.take(v + 1).last() == last);
            let k = if last.len() >= limit { last.len() } else { limit as nat };
            topk::lemma_all_top(last, k);
            assert forall|i: int, j: int| 0 <= i < rest.len() && 0 <= j < last.len() implies rest[i]
                != last[j] by {
                assert(rest[i].volume < v);
                assert(last[j].volume == v);
            }
            topk::lemma_disjoint(best@, last, rest, last);
        }
        let merged = merge(best.as_slice(), parts[v].cands.as_slice(), limit);
        proof {
            let k = if last.len() >= limit { last.len() } else { limit as nat };
            topk::lemma_top_of_tops(rest, last, best@, last, merged@, limit as nat, k, limit as nat);
        }
        best = merged;
    }
    assert(all.take(all.len() as int) =~= all);
    let mut out: Vec<SearchResult> = Vec::new();
    let mut i: usize = 0;
    while i < best.len()
        invariant
            i <= best@.len(),
            forall|v: int| #![trigger index@[v]] 0 <= v < index@.len() ==> index@[v].pools_ok(),
            all == lists(parts@),
            parts_ok(all, index@),
            topk::is_top(best@, joined(all), limit as nat),
            out@.len() == i,
            forall|j: int| #![trigger out@[j]]
                0 <= j < i ==> shows(out@[j], index@, best@[j]),
        decreases best@.len() - i,
    {
        let c = best[i];
        proof {
            lemma_joined(all, index@, all.len() as int);
            assert(all.take(all.len() as int) =~= all);
            assert(joined(all).contains(best@[i as int]));
            let k = choose|k: int| 0 <= k < joined(all).len() && joined(all)[k] == c;
            assert(joined(all)[k].volume < index@.len());
        }
        out.push(result_of(index, &c));
        i = i + 1;
    }
    assert(shows_best(out@, index@, lists(parts@), best@, limit as nat));
    out
}

/// The query as it is held against names: in UTF-16, its ASCII letters in lower case.
pub open spec fn query_units(query: Seq<char>) -> Seq<u16> {
    text::fold_units(text::utf16(query))
}

fn to_query_units(query: &str) -> (r: Vec<u16>)
    ensures
        r@ == query_units(query@),
{
    let units = to_utf16(query);
    let mut out: Vec<u16> = Vec::new();
    for i in 0..units.len()
        invariant
            units@ == text::utf16(query@),
            out@ == text::fold_units(units@.take(i as int)),
    {
        out.push(fold(units[i]));
        assert(out@ =~= text::fold_units(units@.take(i + 1)));
    }
    assert(units@.take(units@.len() as int) =~= units@);
    out
}

/// All scans were completed.
pub open spec fn all_complete(parts: Seq<Scan>) -> bool {
    forall|v: int| #![trigger parts[v]] 0 <= v < parts.len() ==> parts[v].complete
}

/// What becomes of the scans of all volumes: a search that was overtaken, or that gave up a scan, is
/// cancelled and shows nothing.
pub fn conclude(index: &Index, parts: &[Scan], overtaken: bool, limit: usize) -> (r: SearchOutcome)
    requires
        forall|v: int| #![trigger index@[v]] 0 <= v < index@.len() ==> index@[v].pools_ok(),
        parts_ok(lists(parts@), index@),
    ensures
        r.cancelled == (overtaken || !all_complete(parts@)),
        r.cancelled ==> r.items@.len() == 0,
        !r.cancelled ==> exists|chosen: Seq<Cand>|
            #![trigger shows_best(r.items@, index@, lists(parts@), chosen, limit as nat)]
            shows_best(r.items@, index@, lists(parts@), chosen, limit as nat),
{
    if overtaken {
        return SearchOutcome { items: Vec::new(), cancelled: true };
    }
    for v in 0..parts.len()
        invariant
            !overtaken,
            forall|u: int| #![trigger parts@[u]] 0 <= u < v ==> parts@[u].complete,
    {
        if !parts[v].complete {
            assert(!parts@[v as int].complete);
            return SearchOutcome { items: Vec::new(), cancelled: true };
        }
    }
    let items = gather(index, parts, limit);
    let r = SearchOutcome { items, cancelled: false };
    proof {
        let chosen = choose|chosen: Seq<Cand>|
            #![trigger shows_best(items@, index@, lists(parts@), chosen, limit as nat)]
            shows_best(items@, index@, lists(parts@), chosen, limit as nat);
        assert(shows_best(r.items@, index@, lists(parts@), chosen, limit as nat));
    }
    r
}

/// The best candidates of a volume stand for entries of it.
proof fn lemma_parts_ok(
    sel: Seq<Cand>,
    m: VolumeModel,
    volume: int,
    q: Seq<u16>,
    opts: SearchOptions,
    k: nat,
)
    requires
        m.pools_ok(),
        q.len() > 0,
        0 <= volume <= usize::MAX,
        topk::is_top(sel, volume_hits(m, volume, q, opts), k),
    ensures
        forall|i: int| #![trigger sel[i]]
            0 <= i < sel.len() ==> sel[i].volume == volume && sel[i].slot < m.entries.len()
                && sel[i].start <= sel[i].end,
{
    lemma_hits(m, volume, m.entries, 0, q, opts);
    lemma_hits_spans(m, volume, m.entries, 0, q, opts);
    let all = volume_hits(m, volume, q, opts);
    assert forall|i: int| #![trigger sel[i]] 0 <= i < sel.len() implies sel[i].volume == volume
        && sel[i].slot < m.entries.len() && sel[i].start <= sel[i].end by {
        assert(all.contains(sel[i]));
        let k = choose|k: int| 0 <= k < all.len() && all[k] == sel[i];
        assert(all[k].start <= all[k].end);
    }
}

proof fn lemma_hits_spans(
    m: VolumeModel,
    volume: int,
    entries: Seq<Entry>,
    base: int,
    q: Seq<u16>,
    opts: SearchOptions,
)
    requires
        forall|i: int| #![trigger entries[i]]
            0 <= i < entries.len() ==> m.name_in_pool(entries[i]) && (entries[i].py_len > 0
                ==> m.py_in_pool(entries[i])),
        q.len() > 0,
    ensures
        forall|i: int| #![trigger hits(m, volume, entries, base, q, opts)[i]]
            0 <= i < hits(m, volume, entries, base, q, opts).len() ==> hits(
                m,
                volume,
                entries,
                base,
                q,
                opts,
            )[i].start <= hits(m, volume, entries, base, q, opts)[i].end,
    decreases entries.len(),
{
    if entries.len() > 0 {
        assert forall|i: int| #![trigger entries.drop_last()[i]] 0 <= i
            < entries.drop_last().len() implies m.name_in_pool(entries.drop_last()[i]) && (
        entries.drop_last()[i].py_len > 0 ==> m.py_in_pool(entries.drop_last()[i])) by {
            assert(entries.drop_last()[i] == entries[i]);
        }
        lemma_hits_spans(m, volume, entries.drop_last(), base, q, opts);
        let e = entries.last();
        assert(entries[entries.len() - 1] == e);
        lemma_hit_bounds(m, e, q);
        let all = hits(m, volume, entries, base, q, opts);
        let rest = hits(m, volume, entries.drop_last(), base, q, opts);
        assert forall|i: int| 0 <= i < all.len() implies all[i].start <= all[i].end by {
            if i < rest.len() {
                assert(all[i] == rest[i]);
            } else {
                let hit = entry_hit(m, e, q)->0;
                assert(all[i].start == hit.1 as u16 && all[i].end == hit.2 as u16);
            }
        }
    }
}

/// Searches all volumes. Each volume contributes its `top_k` best candidates; of these the `limit`
/// best are shown, in order of falling scores. Which of equally scored ones are shown, and in
/// which order, is left open.
///
/// A search with a generation is given up once the current generation exceeds its own, and reports
/// that it was cancelled; what it shows otherwise is complete.
pub fn search(
    index: &Index,
    query: &str,
    cancel: Option<(&CancelGen, u64)>,
    opts: &SearchOptions,
) -> (r: SearchOutcome)
    requires
        forall|v: int| #![trigger index@[v]] 0 <= v < index@.len() ==> index@[v].pools_ok(),
        opts.fits(),
    ensures
        query@.len() == 0 ==> !r.cancelled && r.items@.len() == 0,
        r.cancelled ==> can_be_overtaken(cancel),
        r.cancelled ==> r.items@.len() == 0,
        query@.len() > 0 && !r.cancelled ==> answers(
            r.items@,
            index@,
            query_units(query@),
            *opts,
        ),
{
    let q = to_query_units(query);
    proof {
        lemma_units_empty(query@);
    }
    if q.len() == 0 {
        return SearchOutcome { items: Vec::new(), cancelled: false };
    }
    let units = q.as_slice();
    let scan = |i: usize, v: &VolumeIndex| -> (sel: Scan)
        requires
            scan_ready(v, units@, opts),
        ensures
            scan_or_nothing(sel, v, i as int, units@, opts, !can_be_overtaken(cancel)),
        { scan_volume(v, i, units, opts, cancel) };
    proof {
        assert forall|i: usize| #![trigger index.volumes@[i as int]]
            i < index.volumes@.len() implies scan.requires((i, &index.volumes@[i as int])) by {
            assert(index@[i as int] == index.volumes@[i as int]@);
        }
    }
    let parts = map_items(index.volumes.as_slice(), scan);
    let ghost all = lists(parts@);
    proof {
        assert(parts.len() <= usize::MAX);
        assert forall|v: int| #![trigger all[v]] 0 <= v < all.len() implies scan_or_nothing(
            parts@[v],
            &index.volumes@[v],
            v,
            units@,
            opts,
            !can_be_overtaken(cancel),
        ) && index@[v] == index.volumes@[v]@ && all[v] == parts@[v].cands@ by {
            let k = v as usize;
            assert(parts@[k as int] == parts@[v]);
        }
        assert forall|v: int| #![trigger all[v]] 0 <= v < all.len() implies topk::by_score(all[v])
            && all[v].no_duplicates() && forall|i: int| #![trigger all[v][i]]
            0 <= i < all[v].len() ==> all[v][i].volume == v && all[v][i].slot
                < index@[v].entries.len() && all[v][i].start <= all[v][i].end by {
            assert(index@[v].pools_ok());
            if all[v].len() > 0 {
                lemma_parts_ok(all[v], index@[v], v, units@, *opts, opts.top_k as nat);
            }
        }
        assert(parts_ok(all, index@));
    }
    let overtaken = is_cancelled(cancel);
    let outcome = conclude(index, parts.as_slice(), overtaken, opts.limit);
    proof {
        if !can_be_overtaken(cancel) {
            assert forall|v: int| #![trigger parts@[v]] 0 <= v < parts@.len() implies
                parts@[v].complete by {
                assert(all[v] == parts@[v].cands@);
            }
        }
        if !outcome.cancelled {
            assert forall|v: int| #![trigger all[v]] 0 <= v < all.len() implies topk::is_top(
                all[v],
                volume_hits(index@[v], v, units@, *opts),
                opts.top_k as nat,
            ) by {
                assert(parts@[v].complete);
            }
            assert(volume_tops(all, index@, units@, *opts));
            assert(answers(outcome.items@, index@, units@, *opts));
        }
    }
    outcome
}

proof fn lemma_units_empty(query: Seq<char>)
    ensures
        query_units(query).len() == 0 <==> query.len() == 0,
{
    if query.len() > 0 {
        assert(text::utf16_units(query.last()).len() > 0);
    }
}

} // verus!
