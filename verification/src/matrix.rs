//! Sparse affinity matrices and what their scores add up to.
//!
//! A matrix is a dense sequence of sparse rows, one per source index. A row
//! is a sequence of `(target, score)` entries. Read as numbers, the cell
//! `(source, target)` holds the sum of the scores of the entries for `target`
//! in the row of `source`, so a row that lists a target twice holds their sum
//! and a row that does not list it holds zero.

use vstd::prelude::*;
use crate::rank::lists;

verus! {

/// The rows of a matrix as sequences of entries.
pub open spec fn rows_view(m: Seq<Vec<(u32, u64)>>) -> Seq<Seq<(u32, u64)>> {
    Seq::new(m.len(), |r: int| m[r]@)
}

/// The score that `row` holds for target `t`: the sum over its entries for `t`.
pub open spec fn row_weight(row: Seq<(u32, u64)>, t: u32) -> nat
    decreases row.len(),
{
    if row.len() == 0 {
        0
    } else {
        row_weight(row.drop_last(), t) + if row.last().0 == t {
            row.last().1 as nat
        } else {
            0
        }
    }
}

/// Every entry of `row` has a target below `n`.
pub open spec fn row_within(row: Seq<(u32, u64)>, n: int) -> bool {
    forall|i: int| 0 <= i < row.len() ==> (#[trigger] row[i]).0 < n
}

/// Every entry of every row of `m` has a target below `n`.
pub open spec fn targets_within(m: Seq<Seq<(u32, u64)>>, n: int) -> bool {
    forall|r: int| 0 <= r < m.len() ==> row_within(#[trigger] m[r], n)
}

/// Reading one more entry adds its score to the weight of its target.
pub proof fn lemma_row_weight_step(row: Seq<(u32, u64)>, j: int, t: u32)
    requires
        0 <= j < row.len(),
    ensures
        row_weight(row.take(j + 1), t) == row_weight(row.take(j), t) + if row[j].0 == t {
            row[j].1 as nat
        } else {
            0
        },
{
    assert(row.take(j + 1).drop_last() =~= row.take(j));
}

/// The weight of a target never shrinks as more of the row is read.
pub proof fn lemma_row_weight_grows(row: Seq<(u32, u64)>, j: int, t: u32)
    requires
        0 <= j <= row.len(),
    ensures
        row_weight(row.take(j), t) <= row_weight(row, t),
    decreases row.len() - j,
{
    if j < row.len() {
        lemma_row_weight_step(row, j, t);
        lemma_row_weight_grows(row, j + 1, t);
    } else {
        assert(row.take(j) =~= row);
    }
}

/// A target that the row does not list has weight zero.
pub proof fn lemma_row_weight_unlisted(row: Seq<(u32, u64)>, t: u32)
    requires
        !lists(row, t),
    ensures
        row_weight(row, t) == 0,
    decreases row.len(),
{
    if row.len() > 0 {
        assert(row.last() == row[row.len() - 1]);
        assert forall|i: int| 0 <= i < row.drop_last().len() implies (#[trigger] row.drop_last()[i]).0
            != t by {
            assert(row[i].0 != t);
        }
        lemma_row_weight_unlisted(row.drop_last(), t);
    }
}

/// Whether every entry of every row has a target below `n`.
pub fn check_targets(m: &Vec<Vec<(u32, u64)>>, n: usize) -> (ok: bool)
    ensures
        ok == targets_within(rows_view(m@), n as int),
{
    let mut r: usize = 0;
    while r < m.len()
        invariant
            r <= m.len(),
            forall|a: int| 0 <= a < r ==> row_within(#[trigger] rows_view(m@)[a], n as int),
        decreases m.len() - r,
    {
        let row: &Vec<(u32, u64)> = &m[r];
        let mut i: usize = 0;
        while i < row.len()
            invariant
                i <= row.len(),
                r < m.len(),
                row@ == m@[r as int]@,
                forall|b: int| 0 <= b < i ==> (#[trigger] row@[b]).0 < n,
            decreases row.len() - i,
        {
            if row[i].0 as usize >= n {
                proof {
                    assert(rows_view(m@)[r as int] == row@);
                    assert(!row_within(rows_view(m@)[r as int], n as int));
                }
                return false;
            }
            i = i + 1;
        }
        proof {
            assert(rows_view(m@)[r as int] == row@);
        }
        r = r + 1;
    }
    true
}

} // verus!
