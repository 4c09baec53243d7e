//! Bounded selection of the best candidates.

use vstd::prelude::*;
use vstd::set_lib;

verus! {

/// A match: its score, where the entry is, and which part of the name was hit.
#[derive(Clone, Copy, Debug, PartialEq, Eq, Structural)]
pub struct Cand {
    pub score: i32,
    pub volume: usize,
    pub slot: u32,
    /// Start and end of the hit in the name, in UTF-16 units.
    pub start: u16,
    pub end: u16,
}

/// A candidate goes before another of the same volume: it has the higher score, or with equal
/// scores the higher slot.
pub open spec fn outranks(a: Cand, b: Cand) -> bool {
    a.score > b.score || a.score == b.score && a.slot > b.slot
}

/// Scores do not rise.
pub open spec fn by_score(s: Seq<Cand>) -> bool {
    forall|i: int, j: int| #![trigger s[i], s[j]] 0 <= i < j < s.len() ==> s[i].score >= s[j].score
}

/// Each candidate outranks the later ones.
pub open spec fn by_rank(s: Seq<Cand>) -> bool {
    forall|i: int, j: int| #![trigger s[i], s[j]] 0 <= i < j < s.len() ==> outranks(s[i], s[j])
}

/// The smaller of two numbers.
pub open spec fn least(a: nat, b: nat) -> nat {
    if a <= b {
        a
    } else {
        b
    }
}

/// `sel` holds `k` of the candidates (all, if there are fewer), and none that was left out has a
/// higher score than one of them.
pub open spec fn is_top(sel: Seq<Cand>, all: Seq<Cand>, k: nat) -> bool {
    &&& sel.no_duplicates()
    &&& sel.len() == least(k, all.len())
    &&& forall|i: int| #![trigger sel[i]] 0 <= i < sel.len() ==> all.contains(sel[i])
    &&& forall|c: Cand| #![trigger all.contains(c)]
        all.contains(c) && !sel.contains(c) ==> sel.len() == k && forall|i: int|
            #![trigger sel[i]]
            0 <= i < sel.len() ==> sel[i].score >= c.score
}

/// `sel` holds the `k` candidates that outrank all others (all, if there are fewer).
pub open spec fn is_top_ranked(sel: Seq<Cand>, all: Seq<Cand>, k: nat) -> bool {
    &&& by_rank(sel)
    &&& sel.len() == least(k, all.len())
    &&& forall|i: int| #![trigger sel[i]] 0 <= i < sel.len() ==> all.contains(sel[i])
    &&& forall|c: Cand| #![trigger all.contains(c)]
        all.contains(c) && !sel.contains(c) ==> sel.len() == k && forall|i: int|
            #![trigger sel[i]]
            0 <= i < sel.len() ==> outranks(sel[i], c)
}

/// What is best by rank is best by score, in order of falling scores.
pub proof fn lemma_ranked_is_top(sel: Seq<Cand>, all: Seq<Cand>, k: nat)
    requires
        is_top_ranked(sel, all, k),
    ensures
        is_top(sel, all, k),
        by_score(sel),
{
    assert forall|i: int, j: int| 0 <= i < sel.len() && 0 <= j < sel.len() && i != j implies sel[i]
        != sel[j] by {
        if i < j {
            assert(outranks(sel[i], sel[j]));
        } else {
            assert(outranks(sel[j], sel[i]));
        }
    }
}

pub(crate) fn is_above(a: &Cand, b: &Cand) -> (r: bool)
    ensures
        r == outranks(*a, *b),
{
    a.score > b.score || a.score == b.score && a.slot > b.slot
}

/// Offers a candidate to a selection of the `k` highest ranked.
pub(crate) fn offer(sel: &mut Vec<Cand>, c: Cand, k: usize, Ghost(all): Ghost<Seq<Cand>>)
    requires
        is_top_ranked(old(sel)@, all, k as nat),
        forall|i: int| #![trigger all[i]] 0 <= i < all.len() ==> all[i].slot < c.slot,
    ensures
        is_top_ranked(final(sel)@, all.push(c), k as nat),
{
    let ghost start = sel@;
    let ghost more = all.push(c);
    proof {
        assert forall|x: Cand| #[trigger] more.contains(x) <==> all.contains(x) || x == c by {
            if all.contains(x) {
                let i = choose|i: int| 0 <= i < all.len() && all[i] == x;
                assert(more[i] == x);
            }
            assert(more[all.len() as int] == c);
            if more.contains(x) && x != c {
                let i = choose|i: int| 0 <= i < more.len() && more[i] == x;
                assert(all[i] == x);
            }
        }
        assert forall|i: int| #![trigger start[i]] 0 <= i < start.len() implies start[i].slot
            < c.slot by {
            assert(all.contains(start[i]));
        }
    }
    let full = sel.len() >= k;
    if full {
        if k == 0 || !is_above(&c, &sel[k - 1]) {
            proof {
                assert(!start.contains(c));
                assert forall|x: Cand| #![trigger more.contains(x)]
                    more.contains(x) && !start.contains(x) implies start.len() == k && forall|
                    i: int,
                | #![trigger start[i]] 0 <= i < start.len() ==> outranks(start[i], x) by {
                    if x == c {
                        assert forall|i: int| #![trigger start[i]] 0 <= i
                            < start.len() implies outranks(start[i], x) by {
                            assert(outranks(start[k - 1], c));
                        }
                    } else {
                        assert(all.contains(x));
                    }
                }
                assert forall|i: int| #![trigger start[i]] 0 <= i < start.len() implies
                    more.contains(start[i]) by {
                    assert(all.contains(start[i]));
                }
            }
            return ;
        }
        sel.pop();
    }
    let ghost kept = sel@;
    let mut i: usize = sel.len();
    while i > 0 && is_above(&c, &sel[i - 1])
        invariant
            i <= sel@.len(),
            sel@ == kept,
            forall|j: int| #![trigger kept[j]] i <= j < kept.len() ==> outranks(c, kept[j]),
        decreases i,
    {
        i = i - 1;
    }
    sel.insert(i, c);
    proof {
        assert(kept =~= start.take(kept.len() as int));
        let end = sel@;
        assert(end =~= kept.insert(i as int, c));
        assert forall|j: int| #![trigger kept[j]] 0 <= j < i implies outranks(kept[j], c) by {
            assert(kept[j] == start[j]);
            assert(outranks(kept[i - 1], c));
        }
        assert forall|a: int, b: int| #![trigger end[a], end[b]]
            0 <= a < b < end.len() implies outranks(end[a], end[b]) by {
            let x = if a < i { a } else { a - 1 };
            let y = if b < i { b } else { b - 1 };
            if a != i {
                assert(end[a] == kept[x]);
                assert(kept[x] == start[x]);
            }
            if b != i {
                assert(end[b] == kept[y]);
                assert(kept[y] == start[y]);
            }
        }
        assert(end[i as int] == c);
        assert forall|j: int| #![trigger end[j]] 0 <= j < end.len() implies more.contains(end[j]) by {
            if j != i {
                let x = if j < i { j } else { j - 1 };
                assert(end[j] == start[x]);
                assert(all.contains(start[x]));
            }
        }
        assert forall|x: Cand| #![trigger more.contains(x)]
            more.contains(x) && !end.contains(x) implies end.len() == k && forall|j: int|
            #![trigger end[j]]
            0 <= j < end.len() ==> outranks(end[j], x) by {
            assert(x != c);
            assert(all.contains(x));
            assert forall|j: int| 0 <= j < kept.len() implies kept[j] != x by {
                if j < i {
                    assert(end[j] == kept[j]);
                } else {
                    assert(end[j + 1] == kept[j]);
                }
            }
            if full {
                let d = start[k - 1];
                assert(outranks(c, d));
                assert(d == x || outranks(d, x)) by {
                    if d != x {
                        assert(!start.contains(x)) by {
                            assert forall|j: int| 0 <= j < start.len() implies start[j] != x by {
                                if j < kept.len() {
                                    assert(kept[j] == start[j]);
                                }
                            }
                        }
                    }
                }
                assert forall|j: int| #![trigger end[j]] 0 <= j < end.len() implies outranks(
                    end[j],
                    x,
                ) by {
                    if j != i {
                        let y = if j < i { j } else { j - 1 };
                        assert(end[j] == start[y]);
                        assert(outranks(start[y], d));
                    }
                }
            } else {
                assert(!start.contains(x)) by {
                    assert forall|j: int| 0 <= j < start.len() implies start[j] != x by {
                        assert(kept[j] == start[j]);
                    }
                }
            }
        }
    }
}

/// Merges two lists in order of falling scores and keeps the `k` best.
pub(crate) fn merge(a: &[Cand], b: &[Cand], k: usize) -> (r: Vec<Cand>)
    requires
        by_score(a@),
        by_score(b@),
        (a@ + b@).no_duplicates(),
    ensures
        by_score(r@),
        is_top(r@, a@ + b@, k as nat),
{
    let ghost all = a@ + b@;
    let mut out: Vec<Cand> = Vec::new();
    let mut i: usize = 0;
    let mut j: usize = 0;
    while out.len() < k && (i < a.len() || j < b.len())
        invariant
            i <= a@.len(),
            j <= b@.len(),
            by_score(a@),
            by_score(b@),
            all == a@ + b@,
            all.no_duplicates(),
            out@.len() == i + j,
            out@.len() <= k,
            by_score(out@),
            forall|p: int| #![trigger out@[p]]
                0 <= p < out@.len() ==> from_heads(a@, b@, i as int, j as int, out@[p]),
            forall|p: int| #![trigger a@[p]] 0 <= p < i ==> out@.contains(a@[p]),
            forall|p: int| #![trigger b@[p]] 0 <= p < j ==> out@.contains(b@[p]),
            forall|p: int, q: int| #![trigger out@[p], a@[q]]
                0 <= p < out@.len() && i <= q < a@.len() ==> out@[p].score >= a@[q].score,
            forall|p: int, q: int| #![trigger out@[p], b@[q]]
                0 <= p < out@.len() && j <= q < b@.len() ==> out@[p].score >= b@[q].score,
            out@.no_duplicates(),
        decreases a@.len() - i + b@.len() - j,
    {
        let ghost had = out@;
        let first = j >= b.len() || i < a.len() && a[i].score >= b[j].score;
        let c = if first {
            a[i]
        } else {
            b[j]
        };
        proof {
            let at = if first { i as int } else { a@.len() + j };
            assert(all[at] == c);
            assert forall|p: int| 0 <= p < had.len() implies had[p] != c by {
                assert(from_heads(a@, b@, i as int, j as int, had[p]));
                if exists|q: int| 0 <= q < i && a@[q] == had[p] {
                    let q = choose|q: int| 0 <= q < i && a@[q] == had[p];
                    assert(all[q] == had[p]);
                } else {
                    let q = choose|q: int| 0 <= q < j && b@[q] == had[p];
                    assert(all[a@.len() + q] == had[p]);
                }
            }
        }
        out.push(c);
        if first {
            i = i + 1;
        } else {
            j = j + 1;
        }
        proof {
            let ghost ni = i as int;
            let ghost nj = j as int;
            assert forall|p: int| #![trigger out@[p]] 0 <= p < out@.len() implies from_heads(
                a@,
                b@,
                ni,
                nj,
                out@[p],
            ) by {
                if p < had.len() {
                    assert(out@[p] == had[p]);
                } else if first {
                    assert(a@[ni - 1] == out@[p]);
                } else {
                    assert(b@[nj - 1] == out@[p]);
                }
            }
            assert forall|x: Cand| had.contains(x) implies out@.contains(x) by {
                let p = choose|p: int| 0 <= p < had.len() && had[p] == x;
                assert(out@[p] == x);
            }
            assert(out@[had.len() as int] == c);
        }
    }
    proof {
        let end = out@;
        assert forall|p: int| #![trigger end[p]] 0 <= p < end.len() implies all.contains(end[p]) by {
            assert(from_heads(a@, b@, i as int, j as int, end[p]));
            if exists|q: int| 0 <= q < i && a@[q] == end[p] {
                let q = choose|q: int| 0 <= q < i && a@[q] == end[p];
                assert(all[q] == end[p]);
            } else {
                let q = choose|q: int| 0 <= q < j && b@[q] == end[p];
                assert(all[a@.len() + q] == end[p]);
            }
        }
        assert forall|c: Cand| #![trigger all.contains(c)]
            all.contains(c) && !end.contains(c) implies end.len() == k && forall|p: int|
            #![trigger end[p]]
            0 <= p < end.len() ==> end[p].score >= c.score by {
            let q = choose|q: int| 0 <= q < all.len() && all[q] == c;
            if q < a@.len() {
                assert(a@[q] == c);
            } else {
                assert(b@[q - a@.len()] == c);
            }
        }
    }
    out
}

/// A candidate stands among the first ones of two lists.
spec fn from_heads(a: Seq<Cand>, b: Seq<Cand>, i: int, j: int, c: Cand) -> bool {
    (exists|q: int| 0 <= q < i && a[q] == c) || (exists|q: int| 0 <= q < j && b[q] == c)
}

pub proof fn lemma_contains_concat(a: Seq<Cand>, b: Seq<Cand>, c: Cand)
    ensures
        (a + b).contains(c) <==> a.contains(c) || b.contains(c),
{
    let all = a + b;
    if a.contains(c) {
        let q = choose|q: int| 0 <= q < a.len() && a[q] == c;
        assert(all[q] == c);
    }
    if b.contains(c) {
        let q = choose|q: int| 0 <= q < b.len() && b[q] == c;
        assert(all[a.len() + q] == c);
    }
    if all.contains(c) {
        let q = choose|q: int| 0 <= q < all.len() && all[q] == c;
        if q < a.len() {
            assert(a[q] == c);
        } else {
            assert(b[q - a.len()] == c);
        }
    }
}

/// A list without repetitions that is no longer than another, and holds something else, leaves
/// something of the other out.
pub proof fn lemma_left_out(full: Seq<Cand>, sel: Seq<Cand>, s: Cand) -> (t: Cand)
    requires
        full.no_duplicates(),
        sel.no_duplicates(),
        sel.len() <= full.len(),
        sel.contains(s),
        !full.contains(s),
    ensures
        full.contains(t),
        !sel.contains(t),
{
    if forall|t: Cand| full.contains(t) ==> sel.contains(t) {
        full.unique_seq_to_set();
        sel.unique_seq_to_set();
        let rest = sel.to_set().remove(s);
        assert(full.to_set().subset_of(rest)) by {
            assert forall|t: Cand| full.to_set().contains(t) implies rest.contains(t) by {
                assert(full.contains(t));
            }
        }
        set_lib::lemma_len_subset(full.to_set(), rest);
        assert(sel.to_set().contains(s));
    }
    choose|t: Cand| full.contains(t) && !sel.contains(t)
}

/// The best of the best: what is best among the selections of two lists is best among the lists.
pub proof fn lemma_top_of_tops(
    a: Seq<Cand>,
    b: Seq<Cand>,
    sa: Seq<Cand>,
    sb: Seq<Cand>,
    sel: Seq<Cand>,
    ka: nat,
    kb: nat,
    m: nat,
)
    requires
        is_top(sa, a, ka),
        is_top(sb, b, kb),
        is_top(sel, sa + sb, m),
        m <= ka,
        m <= kb,
    ensures
        is_top(sel, a + b, m),
{
    let all = a + b;
    let some = sa + sb;
    assert forall|i: int| #![trigger sel[i]] 0 <= i < sel.len() implies all.contains(sel[i]) by {
        assert(some.contains(sel[i]));
        lemma_contains_concat(sa, sb, sel[i]);
        lemma_contains_concat(a, b, sel[i]);
        if sa.contains(sel[i]) {
            let q = choose|q: int| 0 <= q < sa.len() && sa[q] == sel[i];
            assert(a.contains(sa[q]));
        } else {
            let q = choose|q: int| 0 <= q < sb.len() && sb[q] == sel[i];
            assert(b.contains(sb[q]));
        }
    }
    assert forall|c: Cand| #![trigger all.contains(c)]
        all.contains(c) && !sel.contains(c) implies sel.len() == m && forall|i: int|
        #![trigger sel[i]]
        0 <= i < sel.len() ==> sel[i].score >= c.score by {
        lemma_contains_concat(a, b, c);
        lemma_contains_concat(sa, sb, c);
        if !some.contains(c) {
            let part = if a.contains(c) { sa } else { sb };
            assert(part.len() >= m);
            assert forall|i: int| #![trigger sel[i]] 0 <= i < sel.len() implies sel[i].score
                >= c.score by {
                let s = sel[i];
                assert(some.contains(s));
                if s.score < c.score {
                    if part.contains(s) {
                        let q = choose|q: int| 0 <= q < part.len() && part[q] == s;
                        assert(part[q].score >= c.score);
                    }
                    let t = lemma_left_out(part, sel, s);
                    lemma_contains_concat(sa, sb, t);
                    assert(some.contains(t));
                    let q = choose|q: int| 0 <= q < part.len() && part[q] == t;
                    assert(part[q].score >= c.score);
                }
            }
        }
    }
}

/// Selections of lists that share nothing share nothing.
pub proof fn lemma_disjoint(sa: Seq<Cand>, sb: Seq<Cand>, a: Seq<Cand>, b: Seq<Cand>)
    requires
        sa.no_duplicates(),
        sb.no_duplicates(),
        forall|i: int| #![trigger sa[i]] 0 <= i < sa.len() ==> a.contains(sa[i]),
        forall|i: int| #![trigger sb[i]] 0 <= i < sb.len() ==> b.contains(sb[i]),
        forall|i: int, j: int| #![trigger a[i], b[j]]
            0 <= i < a.len() && 0 <= j < b.len() ==> a[i] != b[j],
    ensures
        (sa + sb).no_duplicates(),
{
    let all = sa + sb;
    assert forall|i: int, j: int| 0 <= i < sa.len() && 0 <= j < sb.len() implies sa[i] != sb[j] by {
        assert(a.contains(sa[i]));
        assert(b.contains(sb[j]));
    }
    assert forall|i: int, j: int| 0 <= i < all.len() && 0 <= j < all.len() && i != j implies all[i]
        != all[j] by {
        if i < sa.len() && j < sa.len() {
            assert(sa[i] != sa[j]);
        } else if i >= sa.len() && j >= sa.len() {
            assert(sb[i - sa.len()] != sb[j - sa.len()]);
        } else if i < sa.len() {
            assert(sa[i] != sb[j - sa.len()]);
        } else {
            assert(sa[j] != sb[i - sa.len()]);
        }
    }
}

/// A list is the best of itself.
pub proof fn lemma_all_top(s: Seq<Cand>, k: nat)
    requires
        s.no_duplicates(),
        s.len() <= k,
    ensures
        is_top(s, s, k),
{
}

/// How many candidates have at least a score.
pub open spec fn count_from(s: Seq<Cand>, x: int) -> nat
    decreases s.len(),
{
    if s.len() == 0 {
        0
    } else {
        count_from(s.drop_last(), x) + if s.last().score >= x {
            1nat
        } else {
            0
        }
    }
}

proof fn lemma_count_remove(s: Seq<Cand>, i: int, x: int)
    requires
        0 <= i < s.len(),
    ensures
        count_from(s, x) == count_from(s.remove(i), x) + if s[i].score >= x {
            1nat
        } else {
            0
        },
    decreases s.len(),
{
    if i == s.len() - 1 {
        assert(s.remove(i) =~= s.drop_last());
    } else {
        lemma_count_remove(s.drop_last(), i, x);
        assert(s.remove(i).drop_last() =~= s.drop_last().remove(i));
    }
}

proof fn lemma_count_within(a: Seq<Cand>, b: Seq<Cand>, x: int)
    requires
        a.no_duplicates(),
        forall|i: int| #![trigger a[i]] 0 <= i < a.len() && a[i].score >= x ==> b.contains(a[i]),
    ensures
        count_from(a, x) <= count_from(b, x),
    decreases a.len(),
{
    if a.len() > 0 {
        let rest = a.drop_last();
        let last = a.last();
        if last.score >= x {
            assert(b.contains(a[a.len() - 1]));
            let j = choose|j: int| 0 <= j < b.len() && b[j] == last;
            let less = b.remove(j);
            assert forall|i: int| #![trigger rest[i]]
                0 <= i < rest.len() && rest[i].score >= x implies less.contains(rest[i]) by {
                assert(rest[i] == a[i]);
                assert(a[i] != a[a.len() - 1]);
                let k = choose|k: int| 0 <= k < b.len() && b[k] == rest[i];
                if k < j {
                    assert(less[k] == rest[i]);
                } else {
                    assert(less[k - 1] == rest[i]);
                }
            }
            lemma_count_within(rest, less, x);
            lemma_count_remove(b, j, x);
        } else {
            assert forall|i: int| #![trigger rest[i]]
                0 <= i < rest.len() && rest[i].score >= x implies b.contains(rest[i]) by {
                assert(rest[i] == a[i]);
            }
            lemma_count_within(rest, b, x);
        }
    }
}

proof fn lemma_count_len(s: Seq<Cand>, x: int)
    ensures
        count_from(s, x) <= s.len(),
        (forall|i: int| #![trigger s[i]] 0 <= i < s.len() ==> s[i].score >= x) ==> count_from(s, x)
            == s.len(),
    decreases s.len(),
{
    if s.len() > 0 {
        lemma_count_len(s.drop_last(), x);
        if forall|i: int| #![trigger s[i]] 0 <= i < s.len() ==> s[i].score >= x {
            assert forall|i: int| #![trigger s.drop_last()[i]]
                0 <= i < s.drop_last().len() implies s.drop_last()[i].score >= x by {
                assert(s.drop_last()[i] == s[i]);
            }
            assert(s[s.len() - 1].score >= x);
        }
    }
}

pub proof fn lemma_count_concat(a: Seq<Cand>, b: Seq<Cand>, x: int)
    ensures
        count_from(a + b, x) == count_from(a, x) + count_from(b, x),
    decreases b.len(),
{
    if b.len() == 0 {
        assert(a + b =~= a);
    } else {
        assert((a + b).drop_last() =~= a + b.drop_last());
        lemma_count_concat(a, b.drop_last(), x);
    }
}

/// A selection of the `k` best has as many candidates from a score on as there are, but at most `k`.
pub proof fn lemma_top_count(sel: Seq<Cand>, all: Seq<Cand>, k: nat, x: int)
    requires
        is_top(sel, all, k),
        all.no_duplicates(),
    ensures
        count_from(sel, x) == least(k, count_from(all, x)),
{
    assert forall|i: int| #![trigger sel[i]]
        0 <= i < sel.len() && sel[i].score >= x implies all.contains(sel[i]) by {}
    lemma_count_within(sel, all, x);
    lemma_count_len(sel, x);
    if exists|c: Cand| #![trigger all.contains(c)]
        all.contains(c) && c.score >= x && !sel.contains(c) {
        let c = choose|c: Cand| #![trigger all.contains(c)]
            all.contains(c) && c.score >= x && !sel.contains(c);
        assert(sel.len() == k);
        assert forall|i: int| #![trigger sel[i]] 0 <= i < sel.len() implies sel[i].score >= x by {
            assert(sel[i].score >= c.score);
        }
    } else {
        assert forall|i: int| #![trigger all[i]]
            0 <= i < all.len() && all[i].score >= x implies sel.contains(all[i]) by {
            assert(all.contains(all[i]));
        }
        lemma_count_within(all, sel, x);
    }
}

proof fn lemma_count_place(s: Seq<Cand>, i: int, x: int)
    requires
        by_score(s),
        0 <= i < s.len(),
    ensures
        s[i].score >= x ==> count_from(s, x) > i,
        s[i].score < x ==> count_from(s, x) <= i,
    decreases s.len(),
{
    let rest = s.drop_last();
    if i < s.len() - 1 {
        assert forall|a: int, b: int| #![trigger rest[a], rest[b]]
            0 <= a < b < rest.len() implies rest[a].score >= rest[b].score by {
            assert(s[a].score >= s[b].score);
        }
        lemma_count_place(rest, i, x);
        assert(s[i].score >= s[s.len() - 1].score);
    } else {
        lemma_count_len(rest, x);
        if s[i].score >= x {
            assert forall|j: int| #![trigger rest[j]] 0 <= j < rest.len() implies rest[j].score
                >= x by {
                assert(s[j].score >= s[i].score);
            }
        }
    }
}

/// Two lists in order of falling scores that have equally many candidates from every score on have
/// the same scores.
pub proof fn lemma_same_scores(a: Seq<Cand>, b: Seq<Cand>)
    requires
        by_score(a),
        by_score(b),
        forall|x: int| #[trigger] count_from(a, x) == count_from(b, x),
    ensures
        a.len() == b.len(),
        forall|i: int| #![trigger a[i]] #![trigger b[i]]
            0 <= i < a.len() ==> a[i].score == b[i].score,
{
    let low = i32::MIN as int;
    lemma_count_len(a, low);
    lemma_count_len(b, low);
    assert(count_from(a, low) == count_from(b, low));
    assert forall|i: int| #![trigger a[i]] #![trigger b[i]] 0 <= i < a.len() implies a[i].score
        == b[i].score by {
        let x = a[i].score as int;
        let y = b[i].score as int;
        lemma_count_place(a, i, x);
        lemma_count_place(b, i, x);
        lemma_count_place(a, i, y);
        lemma_count_place(b, i, y);
        assert(count_from(a, x) == count_from(b, x));
        assert(count_from(a, y) == count_from(b, y));
    }
}

} // verus!
