//! Ranking of sparse rows: which entries are the strongest, and in what order.
//!
//! A row is a sequence of `(target, score)` entries. Entries are ranked by
//! score, highest first; entries of equal score are ranked by target index,
//! lowest first. On entries with distinct targets this is a strict total
//! order, so "the `k` strongest entries, strongest first" names one sequence.

use vstd::prelude::*;

verus! {

/// Entry `(t1, s1)` ranks strictly before entry `(t2, s2)`.
pub open spec fn beats(t1: u32, s1: nat, t2: u32, s2: nat) -> bool {
    s1 > s2 || (s1 == s2 && t1 < t2)
}

/// `a` ranks strictly before `b`.
pub open spec fn outranks(a: (u32, u64), b: (u32, u64)) -> bool {
    beats(a.0, a.1 as nat, b.0, b.1 as nat)
}

/// Every entry ranks strictly before all entries that follow it.
pub open spec fn ranked(row: Seq<(u32, u64)>) -> bool {
    forall|i: int, j: int|
        0 <= i < j < row.len() ==> outranks(#[trigger] row[i], #[trigger] row[j])
}

/// The row has an entry for target `t`.
pub open spec fn lists(row: Seq<(u32, u64)>, t: u32) -> bool {
    exists|i: int| 0 <= i < row.len() && (#[trigger] row[i]).0 == t
}

/// No target occurs in two entries of the row.
pub open spec fn distinct_targets(row: Seq<(u32, u64)>) -> bool {
    forall|i: int, j: int|
        0 <= i < j < row.len() ==> (#[trigger] row[i]).0 != (#[trigger] row[j]).0
}

/// The position of the first entry for target `t` (meaningful when the row lists `t`).
pub open spec fn position_of(row: Seq<(u32, u64)>, t: u32) -> int {
    choose|i: int| 0 <= i < row.len() && (#[trigger] row[i]).0 == t
}

/// The row read as a mapping from target to score. Where a target occurs more
/// than once, the mapping holds the score of one of its entries; rows with
/// distinct targets are read without ambiguity.
pub open spec fn row_scores(row: Seq<(u32, u64)>) -> Map<u32, nat> {
    Map::new(|t: u32| lists(row, t), |t: u32| row[position_of(row, t)].1 as nat)
}

/// `row` holds the `k` strongest entries of `scores`, strongest first; all of
/// them if there are fewer than `k`.
pub open spec fn is_top_k(row: Seq<(u32, u64)>, scores: Map<u32, nat>, k: nat) -> bool {
    &&& row.len() <= k
    &&& ranked(row)
    &&& forall|i: int|
        0 <= i < row.len() ==> scores.contains_key((#[trigger] row[i]).0) && scores[row[i].0]
            == row[i].1
    &&& forall|t: u32| #[trigger]
        scores.contains_key(t) && !lists(row, t) ==> row.len() == k && forall|i: int|
            0 <= i < row.len() ==> beats((#[trigger] row[i]).0, row[i].1 as nat, t, scores[t])
}

/// There is at most one way to pick and order the `k` strongest entries.
pub proof fn law_top_k_unique(
    r1: Seq<(u32, u64)>,
    r2: Seq<(u32, u64)>,
    scores: Map<u32, nat>,
    k: nat,
)
    requires
        is_top_k(r1, scores, k),
        is_top_k(r2, scores, k),
    ensures
        r1 == r2,
{
    lemma_top_k_common_prefix(r1, r2, scores, k, r1.len() as int);
    lemma_top_k_common_prefix(r2, r1, scores, k, r2.len() as int);
    if r1.len() <= r2.len() {
        lemma_top_k_same_length(r1, r2, scores, k);
    } else {
        lemma_top_k_same_length(r2, r1, scores, k);
    }
    assert(r1 =~= r2);
}

/// Two top-`k` rows of the same scores agree on their first `n` entries.
proof fn lemma_top_k_common_prefix(
    r1: Seq<(u32, u64)>,
    r2: Seq<(u32, u64)>,
    scores: Map<u32, nat>,
    k: nat,
    n: int,
)
    requires
        is_top_k(r1, scores, k),
        is_top_k(r2, scores, k),
        0 <= n <= r1.len(),
    ensures
        forall|i: int| 0 <= i < n && i < r2.len() ==> r1[i] == r2[i],
    decreases n,
{
    if n > 0 {
        lemma_top_k_common_prefix(r1, r2, scores, k, n - 1);
        let i = n - 1;
        if i < r2.len() {
            let x = r1[i];
            let y = r2[i];
            if x != y {
                assert(scores[x.0] == x.1 && scores[y.0] == y.1);
                if outranks(x, y) {
                    lemma_absent_from_tail(r2, r1, x, i);
                    assert(!lists(r2, x.0));
                    assert(beats(r2[i].0, r2[i].1 as nat, x.0, scores[x.0]));
                } else {
                    assert(outranks(y, x));
                    lemma_absent_from_tail(r1, r2, y, i);
                    assert(!lists(r1, y.0));
                    assert(beats(r1[i].0, r1[i].1 as nat, y.0, scores[y.0]));
                }
            }
        }
    }
}

/// An entry that ranks before `r[i]` and differs from everything `r` holds
/// before position `i` has no entry in `r` at all.
proof fn lemma_absent_from_tail(r: Seq<(u32, u64)>, other: Seq<(u32, u64)>, x: (u32, u64), i: int)
    requires
        ranked(r),
        ranked(other),
        0 <= i < r.len(),
        i < other.len(),
        other[i] == x,
        outranks(x, r[i]),
        forall|j: int| 0 <= j < i ==> other[j] == r[j],
        forall|j: int| 0 <= j < r.len() && (#[trigger] r[j]).0 == x.0 ==> r[j].1 == x.1,
    ensures
        !lists(r, x.0),
{
    if lists(r, x.0) {
        let j = choose|j: int| 0 <= j < r.len() && (#[trigger] r[j]).0 == x.0;
        assert(r[j] == x);
        if j < i {
            assert(outranks(other[j], other[i]));
        } else if j > i {
            assert(outranks(r[i], r[j]));
        }
    }
}

/// A top-`k` row that is a prefix of another top-`k` row of the same scores
/// is as long as the other.
proof fn lemma_top_k_same_length(
    short: Seq<(u32, u64)>,
    long: Seq<(u32, u64)>,
    scores: Map<u32, nat>,
    k: nat,
)
    requires
        is_top_k(short, scores, k),
        is_top_k(long, scores, k),
        short.len() <= long.len(),
        forall|i: int| 0 <= i < short.len() ==> short[i] == long[i],
    ensures
        short.len() == long.len(),
{
    if short.len() < long.len() {
        let x = long[short.len() as int];
        if lists(short, x.0) {
            let j = choose|j: int| 0 <= j < short.len() && (#[trigger] short[j]).0 == x.0;
            assert(outranks(long[j], long[short.len() as int]));
        } else {
            assert(scores.contains_key(x.0));
            assert(short.len() == k);
        }
    }
}

/// Whether `a` ranks strictly before `b`.
pub fn ranks_before(a: (u32, u64), b: (u32, u64)) -> (r: bool)
    ensures
        r == outranks(a, b),
{
    a.1 > b.1 || (a.1 == b.1 && a.0 < b.0)
}

/// The position at which `x` has to be inserted into the ranked `row` to keep
/// it ranked: everything before it ranks before `x`, nothing from it on does.
fn insertion_point(row: &Vec<(u32, u64)>, x: (u32, u64)) -> (p: usize)
    requires
        ranked(row@),
    ensures
        p <= row.len(),
        forall|i: int| 0 <= i < p ==> outranks(#[trigger] row[i], x),
        forall|i: int| p <= i < row.len() ==> !outranks(#[trigger] row[i], x),
{
    let mut lo: usize = 0;
    let mut hi: usize = row.len();
    while lo < hi
        invariant
            lo <= hi <= row.len(),
            ranked(row@),
            forall|i: int| 0 <= i < lo ==> outranks(#[trigger] row[i], x),
            forall|i: int| hi <= i < row.len() ==> !outranks(#[trigger] row[i], x),
        decreases hi - lo,
    {
        let mid: usize = lo + (hi - lo) / 2;
        if ranks_before(row[mid], x) {
            assert forall|i: int| 0 <= i < mid + 1 implies outranks(#[trigger] row[i], x) by {
                if i < mid {
                    assert(outranks(row[i], row[mid as int]));
                }
            }
            lo = mid + 1;
        } else {
            assert forall|i: int| mid <= i < row.len() implies !outranks(#[trigger] row[i], x) by {
                if i > mid {
                    assert(outranks(row[mid as int], row[i]));
                }
            }
            hi = mid;
        }
    }
    lo
}

/// What `take_top` has established after reading the first `n` entries:
/// `row` holds the `k` strongest of them, strongest first.
spec fn top_of_prefix(row: Seq<(u32, u64)>, entries: Seq<(u32, u64)>, n: int, k: nat) -> bool {
    &&& row.len() <= k
    &&& ranked(row)
    &&& forall|i: int|
        0 <= i < row.len() ==> exists|p: int| 0 <= p < n && entries[p] == #[trigger] row[i]
    &&& forall|p: int|
        0 <= p < n ==> row.contains(#[trigger] entries[p]) || (row.len() == k && forall|i: int|
            0 <= i < row.len() ==> outranks(#[trigger] row[i], entries[p]))
}

/// The `k` strongest entries of a row, strongest first.
///
/// Entries are ranked by score, highest first, and among equal scores by
/// target index, lowest first. A row with at most `k` entries is returned
/// whole, in ranked order.
pub(crate) fn take_top(entries: &Vec<(u32, u64)>, k: usize) -> (row: Vec<(u32, u64)>)
    requires
        distinct_targets(entries@),
    ensures
        is_top_k(row@, row_scores(entries@), k as nat),
{
    let mut row: Vec<(u32, u64)> = Vec::new();
    let mut n: usize = 0;
    while n < entries.len()
        invariant
            n <= entries.len(),
            distinct_targets(entries@),
            top_of_prefix(row@, entries@, n as int, k as nat),
        decreases entries.len() - n,
    {
        let x: (u32, u64) = entries[n];
        let ghost before = row@;
        if k == 0 || (row.len() == k && !ranks_before(x, row[row.len() - 1])) {
            proof {
                lemma_next_is_left_out(before, entries@, n as int, k as nat);
            }
        } else {
            let p: usize = insertion_point(&row, x);
            row.insert(p, x);
            if row.len() > k {
                row.pop();
            }
            proof {
                lemma_next_is_taken(before, entries@, n as int, k as nat, p as int);
                assert(row@ =~= taken(before, x, p as int, k as nat));
            }
        }
        n = n + 1;
    }
    proof {
        lemma_prefix_top_is_top(row@, entries@, k as nat);
    }
    row
}

/// The row after `x` was inserted at position `p` and the row cut back to `k`
/// entries.
spec fn taken(before: Seq<(u32, u64)>, x: (u32, u64), p: int, k: nat) -> Seq<(u32, u64)> {
    if before.len() < k {
        before.insert(p, x)
    } else {
        before.insert(p, x).drop_last()
    }
}

/// An entry that does not rank before the last of a full row is left out of
/// the strongest, and so is every entry where none is kept.
proof fn lemma_next_is_left_out(
    before: Seq<(u32, u64)>,
    entries: Seq<(u32, u64)>,
    n: int,
    k: nat,
)
    requires
        distinct_targets(entries),
        0 <= n < entries.len(),
        top_of_prefix(before, entries, n, k),
        k == 0 || (before.len() == k && !outranks(entries[n], before[before.len() - 1])),
    ensures
        top_of_prefix(before, entries, n + 1, k),
{
    let x = entries[n];
    if k > 0 {
        let last = before[before.len() - 1];
        let q = choose|q: int| 0 <= q < n && entries[q] == last;
        assert(entries[q].0 != entries[n].0);
        assert(outranks(last, x));
        assert forall|i: int| 0 <= i < before.len() implies outranks(#[trigger] before[i], x) by {
            if i < before.len() - 1 {
                assert(outranks(before[i], before[before.len() - 1]));
            }
        }
    }
    assert forall|i: int| 0 <= i < before.len() implies exists|q: int|
        0 <= q < n + 1 && entries[q] == #[trigger] before[i] by {
        let q = choose|q: int| 0 <= q < n && entries[q] == before[i];
        assert(entries[q] == before[i]);
    }
}

/// An entry that is inserted at its insertion point joins the strongest, and
/// the last of a full row makes room for it.
proof fn lemma_next_is_taken(
    before: Seq<(u32, u64)>,
    entries: Seq<(u32, u64)>,
    n: int,
    k: nat,
    p: int,
)
    requires
        distinct_targets(entries),
        0 <= n < entries.len(),
        top_of_prefix(before, entries, n, k),
        k > 0,
        before.len() < k || outranks(entries[n], before[before.len() - 1]),
        0 <= p <= before.len(),
        forall|a: int| 0 <= a < p ==> outranks(#[trigger] before[a], entries[n]),
        forall|a: int| p <= a < before.len() ==> !outranks(#[trigger] before[a], entries[n]),
    ensures
        top_of_prefix(taken(before, entries[n], p, k), entries, n + 1, k),
{
    let x = entries[n];
    let grown = before.insert(p, x);
    let row = taken(before, x, p, k);
    assert(grown[p] == x);
    assert forall|i: int, j: int| 0 <= i < j < grown.len() implies outranks(
        #[trigger] grown[i],
        #[trigger] grown[j],
    ) by {
        lemma_insert_keeps_ranked(before, entries, n, k, p, i, j);
    }
    if before.len() == k {
        assert(p < before.len());
    }
    assert forall|i: int| 0 <= i < row.len() implies exists|q: int|
        0 <= q < n + 1 && entries[q] == #[trigger] row[i] by {
        if i < p {
            assert(row[i] == before[i]);
            let q = choose|q: int| 0 <= q < n && entries[q] == before[i];
            assert(entries[q] == row[i]);
        } else if i == p {
            assert(entries[n] == row[i]);
        } else {
            assert(row[i] == before[i - 1]);
            let q = choose|q: int| 0 <= q < n && entries[q] == before[i - 1];
            assert(entries[q] == row[i]);
        }
    }
    assert forall|q: int| 0 <= q < n + 1 implies row.contains(#[trigger] entries[q]) || (row.len()
        == k && forall|i: int| 0 <= i < row.len() ==> outranks(#[trigger] row[i], entries[q])) by {
        let e = entries[q];
        if q == n {
            assert(row[p] == e);
        } else if before.contains(e) {
            let j = choose|j: int| 0 <= j < before.len() && before[j] == e;
            if j < p {
                assert(row[j] == e);
            } else if j + 1 < row.len() {
                assert(row[j + 1] == e);
            } else {
                assert(e == grown[grown.len() - 1]);
                assert forall|i: int| 0 <= i < row.len() implies outranks(#[trigger] row[i], e) by {
                    assert(outranks(grown[i], grown[grown.len() - 1]));
                }
            }
        } else {
            assert forall|i: int| 0 <= i < row.len() implies outranks(#[trigger] row[i], e) by {
                assert(outranks(before[before.len() - 1], e));
                assert(outranks(grown[i], grown[grown.len() - 1]));
            }
        }
    }
}

/// Inserting the next entry at its insertion point keeps the row ranked.
proof fn lemma_insert_keeps_ranked(
    before: Seq<(u32, u64)>,
    entries: Seq<(u32, u64)>,
    n: int,
    k: nat,
    p: int,
    i: int,
    j: int,
)
    requires
        distinct_targets(entries),
        0 <= n < entries.len(),
        top_of_prefix(before, entries, n, k),
        0 <= p <= before.len(),
        forall|a: int| 0 <= a < p ==> outranks(#[trigger] before[a], entries[n]),
        forall|a: int| p <= a < before.len() ==> !outranks(#[trigger] before[a], entries[n]),
        0 <= i < j < before.len() + 1,
    ensures
        outranks(before.insert(p, entries[n])[i], before.insert(p, entries[n])[j]),
{
    let x = entries[n];
    let grown = before.insert(p, x);
    if j == p {
        assert(grown[i] == before[i]);
    } else if i == p {
        assert(grown[j] == before[j - 1]);
        let q = choose|q: int| 0 <= q < n && entries[q] == before[j - 1];
        assert(entries[q].0 != entries[n].0);
    } else {
        let a = if i < p {
            i
        } else {
            i - 1
        };
        let b = if j < p {
            j
        } else {
            j - 1
        };
        assert(grown[i] == before[a]);
        assert(grown[j] == before[b]);
        assert(outranks(before[a], before[b]));
    }
}

/// Once every entry has been read, the strongest of the prefix are the
/// strongest of the row.
proof fn lemma_prefix_top_is_top(row: Seq<(u32, u64)>, entries: Seq<(u32, u64)>, k: nat)
    requires
        distinct_targets(entries),
        top_of_prefix(row, entries, entries.len() as int, k),
    ensures
        is_top_k(row, row_scores(entries), k),
{
    let scores = row_scores(entries);
    assert forall|p: int| 0 <= p < entries.len() implies scores.contains_key(
        (#[trigger] entries[p]).0,
    ) && scores[entries[p].0] == entries[p].1 by {
        lemma_row_scores_at(entries, p);
    }
    assert forall|i: int| 0 <= i < row.len() implies scores.contains_key((#[trigger] row[i]).0)
        && scores[row[i].0] == row[i].1 by {
        let p = choose|p: int| 0 <= p < entries.len() && entries[p] == row[i];
        assert(scores.contains_key(entries[p].0));
    }
    assert forall|t: u32| #[trigger] scores.contains_key(t) && !lists(row, t) implies row.len()
        == k && forall|i: int|
        0 <= i < row.len() ==> beats((#[trigger] row[i]).0, row[i].1 as nat, t, scores[t]) by {
        let p = position_of(entries, t);
        assert(scores.contains_key(entries[p].0));
        if row.contains(entries[p]) {
            let i = choose|i: int| 0 <= i < row.len() && row[i] == entries[p];
            assert(row[i].0 == t);
        }
        assert forall|i: int| 0 <= i < row.len() implies beats(
            (#[trigger] row[i]).0,
            row[i].1 as nat,
            t,
            scores[t],
        ) by {
            assert(outranks(row[i], entries[p]));
        }
    }
}

/// In a row with distinct targets, the mapping holds each entry's own score.
pub proof fn lemma_row_scores_at(row: Seq<(u32, u64)>, p: int)
    requires
        distinct_targets(row),
        0 <= p < row.len(),
    ensures
        row_scores(row).contains_key(row[p].0),
        row_scores(row)[row[p].0] == row[p].1,
{
    let t = row[p].0;
    assert(lists(row, t));
    let q = position_of(row, t);
    if q < p {
        assert(row[q].0 != row[p].0);
    } else if p < q {
        assert(row[p].0 != row[q].0);
    }
}

} // verus!
