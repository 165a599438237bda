//! Two-hop propagation: the sparse product of two affinity matrices, each
//! row cut down to its strongest entries.
//!
//! Repository-to-repository affinity is the product of the
//! repository-to-user matrix with the user-to-repository matrix; the final
//! recommendations are the product of the user-to-repository matrix with the
//! repository-to-repository matrix. A repository's affinity to itself is part
//! of the product like any other cell.

use vstd::prelude::*;
use std::collections::HashMap;
use crate::error::PipelineError;
use crate::matrix::{
    check_targets,
    lemma_row_weight_grows,
    lemma_row_weight_step,
    lemma_row_weight_unlisted,
    row_weight,
    row_within,
    rows_view,
    targets_within,
};
use crate::rank::{
    distinct_targets,
    is_top_k,
    lemma_row_scores_at,
    law_top_k_unique,
    lists,
    row_scores,
    take_top,
};

verus! {

broadcast use vstd::std_specs::hash::group_hash_axioms;

/// What reaches target `t` from the row `from` in two hops: for each entry
/// `(mid, s1)` of `from`, `s1` times the score that the row of `mid` in `via`
/// holds for `t`, summed over the entries of `from`.
pub open spec fn hop_sum(from: Seq<(u32, u64)>, via: Seq<Seq<(u32, u64)>>, t: u32) -> nat
    decreases from.len(),
{
    if from.len() == 0 {
        0
    } else {
        hop_sum(from.drop_last(), via, t) + (from.last().1 as nat) * row_weight(
            via[from.last().0 as int],
            t,
        )
    }
}

/// Some entry of `from` leads to a row of `via` that lists target `t`.
pub open spec fn hop_reaches(from: Seq<(u32, u64)>, via: Seq<Seq<(u32, u64)>>, t: u32) -> bool {
    exists|i: int| 0 <= i < from.len() && lists(#[trigger] via[from[i].0 as int], t)
}

/// The product row of `from` through `via`: every target that is reached,
/// with what reaches it.
pub open spec fn two_hop_scores(from: Seq<(u32, u64)>, via: Seq<Seq<(u32, u64)>>) -> Map<
    u32,
    nat,
> {
    Map::new(|t: u32| hop_reaches(from, via, t), |t: u32| hop_sum(from, via, t))
}

/// Some cell of the product of `from` and `via` exceeds 64 bits.
pub open spec fn product_overflows(
    from: Seq<Seq<(u32, u64)>>,
    via: Seq<Seq<(u32, u64)>>,
) -> bool {
    exists|r: int, t: u32| 0 <= r < from.len() && #[trigger] hop_sum(from[r], via, t) > u64::MAX
}

/// `out` is the product of `from` and `via` with each row cut to its `k`
/// strongest entries, strongest first.
pub open spec fn is_product(
    out: Seq<Seq<(u32, u64)>>,
    from: Seq<Seq<(u32, u64)>>,
    via: Seq<Seq<(u32, u64)>>,
    k: nat,
) -> bool {
    &&& out.len() == from.len()
    &&& forall|r: int|
        0 <= r < out.len() ==> is_top_k(#[trigger] out[r], two_hop_scores(from[r], via), k)
}

/// The `k` strongest entries of `scores`, strongest first.
pub open spec fn top_k_row(scores: Map<u32, nat>, k: nat) -> Seq<(u32, u64)> {
    choose|row: Seq<(u32, u64)>| is_top_k(row, scores, k)
}

/// The product of `from` and `via` with each row cut to its `k` strongest
/// entries.
pub open spec fn product_of(
    from: Seq<Seq<(u32, u64)>>,
    via: Seq<Seq<(u32, u64)>>,
    k: nat,
) -> Seq<Seq<(u32, u64)>> {
    Seq::new(from.len(), |r: int| top_k_row(two_hop_scores(from[r], via), k))
}

/// Two matrices have one product: whatever meets `is_product` is `product_of`.
pub proof fn law_product_unique(
    out: Seq<Seq<(u32, u64)>>,
    from: Seq<Seq<(u32, u64)>>,
    via: Seq<Seq<(u32, u64)>>,
    k: nat,
)
    requires
        is_product(out, from, via, k),
    ensures
        out == product_of(from, via, k),
{
    assert forall|r: int| 0 <= r < out.len() implies out[r] == product_of(from, via, k)[r] by {
        let scores = two_hop_scores(from[r], via);
        assert(is_top_k(out[r], scores, k));
        law_top_k_unique(out[r], top_k_row(scores, k), scores, k);
    }
    assert(out =~= product_of(from, via, k));
}

/// A product names no target that its second matrix does not name: where
/// every target of `via` is below `bound`, every target of the product is.
pub proof fn law_product_within(
    out: Seq<Seq<(u32, u64)>>,
    from: Seq<Seq<(u32, u64)>>,
    via: Seq<Seq<(u32, u64)>>,
    k: nat,
    bound: int,
)
    requires
        is_product(out, from, via, k),
        targets_within(from, via.len() as int),
        targets_within(via, bound),
    ensures
        targets_within(out, bound),
{
    assert forall|r: int| 0 <= r < out.len() implies row_within(#[trigger] out[r], bound) by {
        assert forall|i: int| 0 <= i < out[r].len() implies (#[trigger] out[r][i]).0 < bound by {
            let t = out[r][i].0;
            assert(is_top_k(out[r], two_hop_scores(from[r], via), k));
            assert(two_hop_scores(from[r], via).contains_key(t));
            let a = choose|a: int|
                0 <= a < from[r].len() && lists(#[trigger] via[from[r][a].0 as int], t);
            assert(row_within(from[r], via.len() as int));
            let mid = from[r][a].0 as int;
            assert(row_within(via[mid], bound));
            let b = choose|b: int| 0 <= b < via[mid].len() && (#[trigger] via[mid][b]).0 == t;
            assert(via[mid][b].0 < bound);
        }
    }
}

/// What `propagate` returns for each input.
pub open spec fn propagate_result(
    result: Result<Vec<Vec<(u32, u64)>>, PipelineError>,
    from: Seq<Seq<(u32, u64)>>,
    via: Seq<Seq<(u32, u64)>>,
    k: nat,
) -> bool {
    match result {
        Ok(out) => {
            &&& targets_within(from, via.len() as int)
            &&& !product_overflows(from, via)
            &&& is_product(rows_view(out@), from, via, k)
        },
        Err(PipelineError::IndexOutOfRange) => !targets_within(from, via.len() as int),
        Err(PipelineError::ScoreOverflow) => {
            &&& targets_within(from, via.len() as int)
            &&& product_overflows(from, via)
        },
        Err(_) => false,
    }
}

/// Reading one more entry of `from` adds its share to every target.
pub proof fn lemma_hop_sum_step(from: Seq<(u32, u64)>, via: Seq<Seq<(u32, u64)>>, i: int, t: u32)
    requires
        0 <= i < from.len(),
    ensures
        hop_sum(from.take(i + 1), via, t) == hop_sum(from.take(i), via, t) + (from[i].1 as nat)
            * row_weight(via[from[i].0 as int], t),
{
    assert(from.take(i + 1).drop_last() =~= from.take(i));
}

/// What reaches a target never shrinks as more of `from` is read.
pub proof fn lemma_hop_sum_grows(from: Seq<(u32, u64)>, via: Seq<Seq<(u32, u64)>>, i: int, t: u32)
    requires
        0 <= i <= from.len(),
    ensures
        hop_sum(from.take(i), via, t) <= hop_sum(from, via, t),
    decreases from.len() - i,
{
    if i < from.len() {
        lemma_hop_sum_step(from, via, i, t);
        lemma_hop_sum_grows(from, via, i + 1, t);
    } else {
        assert(from.take(i) =~= from);
    }
}

/// Nothing reaches a target that is not reached.
pub proof fn lemma_hop_sum_unreached(from: Seq<(u32, u64)>, via: Seq<Seq<(u32, u64)>>, t: u32)
    requires
        !hop_reaches(from, via, t),
    ensures
        hop_sum(from, via, t) == 0,
    decreases from.len(),
{
    if from.len() > 0 {
        let rest = from.drop_last();
        assert forall|i: int| 0 <= i < rest.len() implies !lists(
            #[trigger] via[rest[i].0 as int],
            t,
        ) by {
            assert(rest[i] == from[i]);
            assert(!lists(via[from[i].0 as int], t));
        }
        lemma_hop_sum_unreached(rest, via, t);
        assert(from.last() == from[from.len() - 1]);
        assert(!lists(via[from[from.len() - 1].0 as int], t));
        lemma_row_weight_unlisted(via[from.last().0 as int], t);
        assert((from.last().1 as nat) * 0 == 0);
    }
}

/// What has reached target `t` once the first `i` entries of `from` have been
/// followed to the end and entry `i` through the first `j` entries of its row.
spec fn partial_sum(
    from: Seq<(u32, u64)>,
    via: Seq<Seq<(u32, u64)>>,
    i: int,
    j: int,
    t: u32,
) -> nat {
    hop_sum(from.take(i), via, t) + (from[i].1 as nat) * row_weight(
        via[from[i].0 as int].take(j),
        t,
    )
}

/// Whether target `t` has been reached at that point.
spec fn partial_reach(
    from: Seq<(u32, u64)>,
    via: Seq<Seq<(u32, u64)>>,
    i: int,
    j: int,
    t: u32,
) -> bool {
    hop_reaches(from.take(i), via, t) || lists(via[from[i].0 as int].take(j), t)
}

/// Following one more entry of the row of `from[i]` adds one product to the
/// target of that entry and leaves every other target as it was.
proof fn lemma_partial_sum_step(
    from: Seq<(u32, u64)>,
    via: Seq<Seq<(u32, u64)>>,
    i: int,
    j: int,
    t: u32,
)
    requires
        0 <= i < from.len(),
        0 <= j < via[from[i].0 as int].len(),
    ensures
        partial_sum(from, via, i, j + 1, t) == partial_sum(from, via, i, j, t) + if via[from[i].0 as int][j].0
            == t {
            (from[i].1 as nat) * (via[from[i].0 as int][j].1 as nat)
        } else {
            0
        },
        partial_sum(from, via, i, j + 1, t) <= hop_sum(from, via, t),
        partial_reach(from, via, i, j + 1, t) == (partial_reach(from, via, i, j, t)
            || via[from[i].0 as int][j].0 == t),
{
    let row = via[from[i].0 as int];
    let s1 = from[i].1 as nat;
    lemma_row_weight_step(row, j, t);
    let w0 = row_weight(row.take(j), t);
    let w1 = row_weight(row.take(j + 1), t);
    let s2 = row[j].1 as nat;
    assert(s1 * (w0 + s2) == s1 * w0 + s1 * s2) by (nonlinear_arith);
    lemma_row_weight_grows(row, j + 1, t);
    let w = row_weight(row, t);
    assert(s1 * w1 <= s1 * w) by (nonlinear_arith)
        requires
            w1 <= w,
    ;
    lemma_hop_sum_step(from, via, i, t);
    lemma_hop_sum_grows(from, via, i + 1, t);
    if lists(row.take(j + 1), t) {
        let a = choose|a: int| 0 <= a < row.take(j + 1).len() && (#[trigger] row.take(j + 1)[a]).0
            == t;
        if a < j {
            assert(row.take(j)[a].0 == t);
        }
    }
    if lists(row.take(j), t) {
        let a = choose|a: int| 0 <= a < row.take(j).len() && (#[trigger] row.take(j)[a]).0 == t;
        assert(row.take(j + 1)[a].0 == t);
    }
    if row[j].0 == t {
        assert(row.take(j + 1)[j].0 == t);
    }
}

/// Before the row of `from[i]` is entered, what has reached a target is what
/// reaches it from the first `i` entries.
proof fn lemma_partial_sum_enter(
    from: Seq<(u32, u64)>,
    via: Seq<Seq<(u32, u64)>>,
    i: int,
    t: u32,
)
    requires
        0 <= i < from.len(),
    ensures
        partial_sum(from, via, i, 0, t) == hop_sum(from.take(i), via, t),
        partial_reach(from, via, i, 0, t) == hop_reaches(from.take(i), via, t),
{
    let row = via[from[i].0 as int];
    assert(row.take(0).len() == 0);
    assert((from[i].1 as nat) * 0 == 0);
}

/// Once the row of `from[i]` has been followed to its end, what has reached a
/// target is what reaches it from the first `i + 1` entries.
proof fn lemma_partial_sum_leave(
    from: Seq<(u32, u64)>,
    via: Seq<Seq<(u32, u64)>>,
    i: int,
    t: u32,
)
    requires
        0 <= i < from.len(),
    ensures
        partial_sum(from, via, i, via[from[i].0 as int].len() as int, t) == hop_sum(
            from.take(i + 1),
            via,
            t,
        ),
        partial_reach(from, via, i, via[from[i].0 as int].len() as int, t) == hop_reaches(
            from.take(i + 1),
            via,
            t,
        ),
{
    let row = via[from[i].0 as int];
    assert(row.take(row.len() as int) =~= row);
    lemma_hop_sum_step(from, via, i, t);
    let shorter = from.take(i);
    let longer = from.take(i + 1);
    if hop_reaches(longer, via, t) {
        let a = choose|a: int| 0 <= a < longer.len() && lists(#[trigger] via[longer[a].0 as int], t);
        if a < i {
            assert(shorter[a] == longer[a]);
            assert(lists(via[shorter[a].0 as int], t));
        }
    }
    if hop_reaches(shorter, via, t) {
        let a = choose|a: int|
            0 <= a < shorter.len() && lists(#[trigger] via[shorter[a].0 as int], t);
        assert(longer[a] == shorter[a]);
        assert(lists(via[longer[a].0 as int], t));
    }
    if lists(row, t) {
        assert(longer[i] == from[i]);
        assert(lists(via[longer[i].0 as int], t));
    }
}

/// The state of `product_row` between two products: `entries` holds one entry
/// for each target reached so far, with what has reached it, and `place` finds
/// the entry of a target.
spec fn accumulated(
    entries: Seq<(u32, u64)>,
    place: Map<u32, usize>,
    from: Seq<(u32, u64)>,
    via: Seq<Seq<(u32, u64)>>,
    i: int,
    j: int,
) -> bool {
    &&& forall|p: int|
        0 <= p < entries.len() ==> place.contains_key((#[trigger] entries[p]).0)
            && place[entries[p].0] == p
    &&& forall|t: u32| #[trigger]
        place.contains_key(t) ==> place[t] < entries.len() && entries[place[t] as int].0 == t
    &&& forall|t: u32| #[trigger] place.contains_key(t) <==> partial_reach(from, via, i, j, t)
    &&& forall|p: int|
        0 <= p < entries.len() ==> (#[trigger] entries[p]).1 == partial_sum(
            from,
            via,
            i,
            j,
            entries[p].0,
        )
}

/// The unranked product row of one source: one entry for each target reached
/// in two hops, with what reaches it; `None` where a score exceeds 64 bits.
fn product_row(from: &Vec<(u32, u64)>, via: &Vec<Vec<(u32, u64)>>) -> (result: Option<
    Vec<(u32, u64)>,
>)
    requires
        row_within(from@, via.len() as int),
    ensures
        match result {
            Some(entries) => {
                &&& distinct_targets(entries@)
                &&& row_scores(entries@) == two_hop_scores(from@, rows_view(via@))
                &&& forall|t: u32| hop_sum(from@, rows_view(via@), t) <= u64::MAX
            },
            None => exists|t: u32| hop_sum(from@, rows_view(via@), t) > u64::MAX,
        },
{
    let ghost f = from@;
    let ghost v = rows_view(via@);
    let mut entries: Vec<(u32, u64)> = Vec::new();
    let mut place: HashMap<u32, usize> = HashMap::new();
    let mut i: usize = 0;
    while i < from.len()
        invariant
            i <= from.len(),
            f == from@,
            v == rows_view(via@),
            row_within(f, via.len() as int),
            forall|p: int|
                0 <= p < entries.len() ==> place@.contains_key((#[trigger] entries[p]).0)
                    && place@[entries[p].0] == p,
            forall|t: u32| #[trigger]
                place@.contains_key(t) ==> place@[t] < entries.len() && entries[place@[t] as int].0
                    == t,
            forall|t: u32| #[trigger] place@.contains_key(t) <==> hop_reaches(f.take(i as int), v, t),
            forall|p: int|
                0 <= p < entries.len() ==> (#[trigger] entries[p]).1 == hop_sum(
                    f.take(i as int),
                    v,
                    entries[p].0,
                ),
        decreases from.len() - i,
    {
        let mid: usize = from[i].0 as usize;
        let s1: u64 = from[i].1;
        let row: &Vec<(u32, u64)> = &via[mid];
        proof {
            assert(v[f[i as int].0 as int] == row@);
            assert forall|t: u32|
                #[trigger] partial_sum(f, v, i as int, 0, t) == hop_sum(f.take(i as int), v, t) by {
                lemma_partial_sum_enter(f, v, i as int, t);
            }
            assert forall|t: u32|
                #[trigger] partial_reach(f, v, i as int, 0, t) == hop_reaches(
                    f.take(i as int),
                    v,
                    t,
                ) by {
                lemma_partial_sum_enter(f, v, i as int, t);
            }
        }
        let mut j: usize = 0;
        while j < row.len()
            invariant
                i < from.len(),
                j <= row.len(),
                f == from@,
                v == rows_view(via@),
                s1 == f[i as int].1,
                f[i as int].0 < v.len(),
                row@ == v[f[i as int].0 as int],
                accumulated(entries@, place@, f, v, i as int, j as int),
            decreases row.len() - j,
        {
            let t2: u32 = row[j].0;
            let s2: u64 = row[j].1;
            proof {
                lemma_partial_sum_step(f, v, i as int, j as int, t2);
                assert forall|t: u32|
                    #[trigger] partial_sum(f, v, i as int, j + 1, t) == partial_sum(
                        f,
                        v,
                        i as int,
                        j as int,
                        t,
                    ) + if t2 == t {
                        (s1 as nat) * (s2 as nat)
                    } else {
                        0
                    } by {
                    lemma_partial_sum_step(f, v, i as int, j as int, t);
                }
                assert forall|t: u32|
                    #[trigger] partial_reach(f, v, i as int, j + 1, t) == (partial_reach(
                        f,
                        v,
                        i as int,
                        j as int,
                        t,
                    ) || t2 == t) by {
                    lemma_partial_sum_step(f, v, i as int, j as int, t);
                }
            }
            let term: u64 = match s1.checked_mul(s2) {
                Some(product) => product,
                None => {
                    proof {
                        assert(partial_sum(f, v, i as int, j + 1, t2) <= hop_sum(f, v, t2));
                        assert(hop_sum(f, v, t2) > u64::MAX);
                    }
                    return None;
                },
            };
            match place.get(&t2) {
                Some(found) => {
                    let p: usize = *found;
                    let sum: u64 = match entries[p].1.checked_add(term) {
                        Some(sum) => sum,
                        None => {
                            proof {
                                assert(partial_sum(f, v, i as int, j + 1, t2) <= hop_sum(f, v, t2));
                                assert(hop_sum(f, v, t2) > u64::MAX);
                            }
                            return None;
                        },
                    };
                    entries[p] = (t2, sum);
                },
                None => {
                    proof {
                        lemma_partial_sum_unreached(f, v, i as int, j as int, t2);
                    }
                    place.insert(t2, entries.len());
                    entries.push((t2, term));
                },
            }
            j = j + 1;
        }
        proof {
            assert forall|t: u32|
                #[trigger] partial_sum(f, v, i as int, row@.len() as int, t) == hop_sum(
                    f.take(i + 1),
                    v,
                    t,
                ) by {
                lemma_partial_sum_leave(f, v, i as int, t);
            }
            assert forall|t: u32|
                #[trigger] partial_reach(f, v, i as int, row@.len() as int, t) == hop_reaches(
                    f.take(i + 1),
                    v,
                    t,
                ) by {
                lemma_partial_sum_leave(f, v, i as int, t);
            }
        }
        i = i + 1;
    }
    proof {
        assert(f.take(f.len() as int) =~= f);
        assert forall|a: int, b: int| 0 <= a < b < entries@.len() implies (#[trigger] entries@[a]).0
            != (#[trigger] entries@[b]).0 by {
            assert(place@[entries@[a].0] == a);
            assert(place@[entries@[b].0] == b);
        }
        assert forall|t: u32| hop_sum(f, v, t) <= u64::MAX by {
            if place@.contains_key(t) {
                assert(entries@[place@[t] as int].1 == hop_sum(f, v, t));
            } else {
                lemma_hop_sum_unreached(f, v, t);
            }
        }
        assert forall|t: u32| #[trigger] lists(entries@, t) == hop_reaches(f, v, t) by {
            if lists(entries@, t) {
                let p = choose|p: int| 0 <= p < entries@.len() && (#[trigger] entries@[p]).0 == t;
                assert(place@.contains_key(entries@[p].0));
            }
            if hop_reaches(f, v, t) {
                assert(place@.contains_key(t));
                assert(entries@[place@[t] as int].0 == t);
            }
        }
        assert forall|t: u32| hop_reaches(f, v, t) implies row_scores(entries@)[t] == hop_sum(
            f,
            v,
            t,
        ) by {
            assert(place@.contains_key(t));
            lemma_row_scores_at(entries@, place@[t] as int);
        }
        assert(row_scores(entries@) =~= two_hop_scores(f, v));
    }
    Some(entries)
}

/// A target that has not been reached has received nothing.
proof fn lemma_partial_sum_unreached(
    from: Seq<(u32, u64)>,
    via: Seq<Seq<(u32, u64)>>,
    i: int,
    j: int,
    t: u32,
)
    requires
        0 <= i < from.len(),
        !partial_reach(from, via, i, j, t),
    ensures
        partial_sum(from, via, i, j, t) == 0,
{
    lemma_hop_sum_unreached(from.take(i), via, t);
    lemma_row_weight_unlisted(via[from[i].0 as int].take(j), t);
    assert((from[i].1 as nat) * 0 == 0);
}

/// The sparse product of `from` and `via`, each row cut to its `k` strongest
/// entries.
///
/// Row `r` of the result holds, for each target `t` that some entry
/// `(mid, s1)` of row `r` of `from` reaches through an entry `(t, s2)` of row
/// `mid` of `via`, the sum of all such `s1 * s2`; of these entries it keeps the
/// `k` with the highest sums, highest first, equal sums by ascending target.
///
/// Fails with `IndexOutOfRange` where an entry of `from` names a row that
/// `via` does not have, and otherwise with `ScoreOverflow` where some sum,
/// kept or not, exceeds 64 bits.
pub fn propagate(from: &Vec<Vec<(u32, u64)>>, via: &Vec<Vec<(u32, u64)>>, k: usize) -> (result:
    Result<Vec<Vec<(u32, u64)>>, PipelineError>)
    ensures
        propagate_result(result, rows_view(from@), rows_view(via@), k as nat),
{
    let ghost f = rows_view(from@);
    let ghost v = rows_view(via@);
    if !check_targets(from, via.len()) {
        return Err(PipelineError::IndexOutOfRange);
    }
    let mut out: Vec<Vec<(u32, u64)>> = Vec::new();
    let mut r: usize = 0;
    while r < from.len()
        invariant
            r <= from.len(),
            f == rows_view(from@),
            v == rows_view(via@),
            targets_within(f, via.len() as int),
            out.len() == r,
            forall|a: int|
                0 <= a < r ==> is_top_k((#[trigger] out@[a])@, two_hop_scores(f[a], v), k as nat),
            forall|a: int, t: u32| 0 <= a < r ==> #[trigger] hop_sum(f[a], v, t) <= u64::MAX,
        decreases from.len() - r,
    {
        proof {
            assert(f[r as int] == from@[r as int]@);
            assert(row_within(f[r as int], via.len() as int));
        }
        match product_row(&from[r], via) {
            Some(entries) => {
                let row: Vec<(u32, u64)> = take_top(&entries, k);
                out.push(row);
            },
            None => {
                proof {
                    let t = choose|t: u32| hop_sum(f[r as int], v, t) > u64::MAX;
                    assert(hop_sum(f[r as int], v, t) > u64::MAX);
                }
                return Err(PipelineError::ScoreOverflow);
            },
        }
        r = r + 1;
    }
    proof {
        let o = rows_view(out@);
        assert forall|a: int| 0 <= a < o.len() implies is_top_k(
            #[trigger] o[a],
            two_hop_scores(f[a], v),
            k as nat,
        ) by {
            assert(o[a] == out@[a]@);
        }
    }
    Ok(out)
}

/// Repository-to-repository affinity from shared users.
///
/// For each repository `r1`, each user `u` that rated `r1` with score `s1`
/// (an entry of row `r1` of `repo_user_score`) and each repository `r2` that
/// `u` rated with score `s2` (an entry of row `u` of `user_repo_score`),
/// `s1 * s2` is added to the cell `(r1, r2)`. Each row keeps its `max_rel`
/// strongest cells, strongest first.
pub fn calc_repo_repo(
    user_repo_score: &Vec<Vec<(u32, u64)>>,
    repo_user_score: &Vec<Vec<(u32, u64)>>,
    max_rel: usize,
) -> (result: Result<Vec<Vec<(u32, u64)>>, PipelineError>)
    ensures
        propagate_result(
            result,
            rows_view(repo_user_score@),
            rows_view(user_repo_score@),
            max_rel as nat,
        ),
{
    propagate(repo_user_score, user_repo_score, max_rel)
}

/// The final recommendations: each user's scores carried through
/// repository-to-repository affinity.
///
/// For each user `u`, each repository `r1` that `u` rated with score `s1` and
/// each repository `r2` related to `r1` with affinity `s2` (an entry of row
/// `r1` of `repo_repo_score`), `s1 * s2` is added to the cell `(u, r2)`. Each
/// row keeps its `max_rel` strongest cells, strongest first; a user without
/// ratings gets an empty row.
pub fn calc_final(
    user_repo_score: &Vec<Vec<(u32, u64)>>,
    repo_repo_score: &Vec<Vec<(u32, u64)>>,
    max_rel: usize,
) -> (result: Result<Vec<Vec<(u32, u64)>>, PipelineError>)
    ensures
        propagate_result(
            result,
            rows_view(user_repo_score@),
            rows_view(repo_repo_score@),
            max_rel as nat,
        ),
{
    propagate(user_repo_score, repo_repo_score, max_rel)
}

} // verus!
