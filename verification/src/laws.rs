//! What holds of the stages taken together.

use vstd::prelude::*;
use vstd::seq_lib::seq_to_set_is_finite;
use vstd::set_lib::lemma_len_subset;
use crate::aggregate::{
    all_resolve,
    cell_total,
    flipped,
    keeps,
    law_flip_transposes,
    lemma_touched_is_linked,
    pruned,
    ratings_of,
    raw_row,
    raw_rows,
    resolve_event,
    totals_overflow,
    touched,
};
use crate::event::{category_weight, InputItem};
use crate::matrix::{row_weight, row_within, targets_within};
use crate::pipeline::{failure, final_scores, repo_names, user_names};
use crate::propagate::{hop_reaches, hop_sum, is_product, two_hop_scores};
use crate::rank::{beats, is_top_k, lists, outranks};
use crate::registry::{repos_of, users_of};

verus! {

/// The sum of the weights of exactly those events that `user` has on `repo`.
pub open spec fn event_total(events: Seq<InputItem>, user: Seq<char>, repo: Seq<char>) -> nat
    decreases events.len(),
{
    if events.len() == 0 {
        0
    } else {
        event_total(events.drop_last(), user, repo) + if events.last().user@ == user
            && events.last().repo@ == repo {
            match category_weight(events.last().event_type@) {
                Some(w) => w as nat,
                None => 0,
            }
        } else {
            0
        }
    }
}

/// Exact accounting: before pruning, the cell of user `u` and repository `r`
/// holds the sum of the weights of exactly the events of that user on that
/// repository, in the matrix from users to repositories and, mirrored, in the
/// matrix from repositories to users.
pub proof fn law_cells_count_events(
    events: Seq<InputItem>,
    users: Seq<Seq<char>>,
    repos: Seq<Seq<char>>,
    u: u32,
    r: u32,
)
    requires
        all_resolve(events, users, repos),
        users.no_duplicates(),
        repos.no_duplicates(),
        users.len() <= u32::MAX,
        repos.len() <= u32::MAX,
        u < users.len(),
        r < repos.len(),
    ensures
        cell_total(ratings_of(events, users, repos), u as int, r) == event_total(
            events,
            users[u as int],
            repos[r as int],
        ),
        cell_total(flipped(ratings_of(events, users, repos)), r as int, u) == event_total(
            events,
            users[u as int],
            repos[r as int],
        ),
    decreases events.len(),
{
    let ratings = ratings_of(events, users, repos);
    law_flip_transposes(ratings, u, r);
    if events.len() > 0 {
        let rest = events.drop_last();
        let last = events[events.len() - 1];
        assert forall|n: int| 0 <= n < rest.len() implies resolve_event(
            #[trigger] rest[n],
            users,
            repos,
        ) is Ok by {
            assert(rest[n] == events[n]);
        }
        law_cells_count_events(rest, users, repos, u, r);
        assert(ratings.drop_last() =~= ratings_of(rest, users, repos));
        assert(resolve_event(last, users, repos) is Ok);
        assert(users.contains(last.user@));
        assert(repos.contains(last.repo@));
        let i = users.index_of(last.user@);
        let j = repos.index_of(last.repo@);
        assert(users[i] == last.user@ && repos[j] == last.repo@);
        assert(ratings.last().0 == i && ratings.last().1 == j);
    }
}

/// Exact accounting, entry by entry: before pruning, every entry of the row
/// of user `u` names a repository of the registry and holds the sum of the
/// weights of exactly the events of that user on that repository.
pub proof fn law_rows_count_events(
    events: Seq<InputItem>,
    users: Seq<Seq<char>>,
    repos: Seq<Seq<char>>,
    u: u32,
    p: int,
)
    requires
        all_resolve(events, users, repos),
        users.no_duplicates(),
        repos.no_duplicates(),
        users.len() <= u32::MAX,
        repos.len() <= u32::MAX,
        !totals_overflow(ratings_of(events, users, repos)),
        u < users.len(),
        0 <= p < raw_row(ratings_of(events, users, repos), u as int).len(),
    ensures
        raw_row(ratings_of(events, users, repos), u as int)[p].0 < repos.len(),
        raw_row(ratings_of(events, users, repos), u as int)[p].1 == event_total(
            events,
            users[u as int],
            repos[raw_row(ratings_of(events, users, repos), u as int)[p].0 as int],
        ),
{
    let ratings = ratings_of(events, users, repos);
    let r = touched(ratings, u as int)[p];
    lemma_touched_is_linked(ratings, u as int, p);
    let n = choose|n: int|
        0 <= n < ratings.len() && (#[trigger] ratings[n]).0 == u && ratings[n].1 == r;
    assert(resolve_event(events[n], users, repos) is Ok);
    assert(repos.contains(events[n].repo@));
    assert(r < repos.len());
    law_cells_count_events(events, users, repos, u, r);
    assert(cell_total(ratings, u as int, r) <= u64::MAX);
}

/// Pruning is monotone in the minimum rating: with a higher minimum, a row
/// keeps what it kept with the lower minimum and still reaches the higher
/// one, in the same order and with the same scores. Raising the minimum
/// removes entries and does nothing else.
pub proof fn law_threshold_monotone(row: Seq<(u32, u64)>, lower: u64, higher: u64)
    requires
        lower <= higher,
    ensures
        row.filter(keeps(higher)) == row.filter(keeps(lower)).filter(keeps(higher)),
    decreases row.len(),
{
    reveal(Seq::filter);
    if row.len() > 0 {
        let rest = row.drop_last();
        law_threshold_monotone(rest, lower, higher);
        rest.filter(keeps(lower)).lemma_filter_push(row.last(), keeps(higher));
    }
}

/// Pruning a matrix at a higher minimum is pruning it at a lower minimum
/// and then at the higher one.
pub proof fn law_pruning_composes(rows: Seq<Seq<(u32, u64)>>, lower: u64, higher: u64)
    requires
        lower <= higher,
    ensures
        pruned(rows, higher) == pruned(pruned(rows, lower), higher),
{
    assert forall|s: int| 0 <= s < rows.len() implies pruned(rows, higher)[s] == pruned(
        pruned(rows, lower),
        higher,
    )[s] by {
        law_threshold_monotone(rows[s], lower, higher);
    }
    assert(pruned(rows, higher) =~= pruned(pruned(rows, lower), higher));
}

/// What a row that was cut to its `k` strongest entries has left out is no
/// stronger than anything it kept: an entry is left out only of a full row,
/// and every entry that was kept has at least its score.
pub proof fn law_top_k_keeps_strongest(
    row: Seq<(u32, u64)>,
    scores: Map<u32, nat>,
    k: nat,
    t: u32,
    i: int,
)
    requires
        is_top_k(row, scores, k),
        scores.contains_key(t),
        !lists(row, t),
        0 <= i < row.len(),
    ensures
        row.len() == k,
        row[i].1 >= scores[t],
{
    assert(beats(row[i].0, row[i].1 as nat, t, scores[t]));
}

/// The targets of the entries of a row.
pub open spec fn targets_of(row: Seq<(u32, u64)>) -> Seq<u32> {
    Seq::new(row.len(), |i: int| row[i].0)
}

/// A row that was cut to its `k` strongest entries holds exactly as many as
/// there are, up to `k`: it is full where there are at least `k` scores, and
/// lists every target where there are fewer.
pub proof fn law_top_k_takes_all_it_can(row: Seq<(u32, u64)>, scores: Map<u32, nat>, k: nat)
    requires
        is_top_k(row, scores, k),
        scores.dom().finite(),
    ensures
        scores.dom().len() >= k ==> row.len() == k,
        scores.dom().len() <= k ==> row.len() == scores.dom().len(),
        row.len() <= scores.dom().len(),
{
    let targets = targets_of(row);
    seq_to_set_is_finite(targets);
    assert forall|i: int, j: int|
        0 <= i < targets.len() && 0 <= j < targets.len() && i != j implies targets[i]
        != targets[j] by {
        if i < j {
            assert(outranks(row[i], row[j]));
            assert(scores[row[i].0] == row[i].1 && scores[row[j].0] == row[j].1);
        } else {
            assert(outranks(row[j], row[i]));
            assert(scores[row[i].0] == row[i].1 && scores[row[j].0] == row[j].1);
        }
    }
    targets.unique_seq_to_set();
    assert forall|t: u32| targets.to_set().contains(t) implies scores.dom().contains(t) by {
        let i = choose|i: int| 0 <= i < targets.len() && targets[i] == t;
        assert(scores.contains_key(row[i].0));
    }
    lemma_len_subset(targets.to_set(), scores.dom());
    if row.len() < k {
        assert forall|t: u32| scores.dom().contains(t) implies targets.to_set().contains(t) by {
            assert(scores.contains_key(t));
            assert(lists(row, t));
            let i = choose|i: int| 0 <= i < row.len() && (#[trigger] row[i]).0 == t;
            assert(targets[i] == t);
        }
        lemma_len_subset(scores.dom(), targets.to_set());
    }
}

/// A row with every score multiplied by `c`.
pub open spec fn scaled_row(row: Seq<(u32, u64)>, c: nat) -> Seq<(u32, u64)> {
    Seq::new(row.len(), |i: int| (row[i].0, (row[i].1 * c) as u64))
}

/// A matrix with every score multiplied by `c`.
pub open spec fn scaled(m: Seq<Seq<(u32, u64)>>, c: nat) -> Seq<Seq<(u32, u64)>> {
    Seq::new(m.len(), |r: int| scaled_row(m[r], c))
}

/// Every score of the row, multiplied by `c`, fits in 64 bits.
pub open spec fn row_scales(row: Seq<(u32, u64)>, c: nat) -> bool {
    forall|i: int| 0 <= i < row.len() ==> (#[trigger] row[i]).1 * c <= u64::MAX
}

/// Every score of the matrix, multiplied by `c`, fits in 64 bits.
pub open spec fn scales(m: Seq<Seq<(u32, u64)>>, c: nat) -> bool {
    forall|r: int| 0 <= r < m.len() ==> row_scales(#[trigger] m[r], c)
}

/// Scaling a row scales the weight of each target and lists the same targets.
pub proof fn lemma_row_weight_scales(row: Seq<(u32, u64)>, c: nat, t: u32)
    requires
        row_scales(row, c),
    ensures
        row_weight(scaled_row(row, c), t) == c * row_weight(row, t),
        lists(scaled_row(row, c), t) == lists(row, t),
    decreases row.len(),
{
    let big = scaled_row(row, c);
    if row.len() > 0 {
        let rest = row.drop_last();
        assert forall|i: int| 0 <= i < rest.len() implies (#[trigger] rest[i]).1 * c
            <= u64::MAX by {
            assert(rest[i] == row[i]);
        }
        lemma_row_weight_scales(rest, c, t);
        assert(big.drop_last() =~= scaled_row(rest, c));
        let w = row_weight(rest, t);
        let s = row.last().1 as nat;
        assert(row[row.len() - 1].1 * c <= u64::MAX);
        assert(big.last().1 == s * c);
        assert(c * (w + s) == c * w + s * c) by (nonlinear_arith);
    } else {
        assert(c * 0 == 0);
    }
    if lists(big, t) {
        let i = choose|i: int| 0 <= i < big.len() && (#[trigger] big[i]).0 == t;
        assert(row[i].0 == t);
    }
    if lists(row, t) {
        let i = choose|i: int| 0 <= i < row.len() && (#[trigger] row[i]).0 == t;
        assert(big[i].0 == t);
    }
}

/// Two weighted hops multiply: with the scores of the first leg scaled by `a`
/// and those of the second leg by `b`, what reaches a target is scaled by
/// `a * b`, and the same targets are reached.
pub proof fn law_two_hops_scale(
    from: Seq<(u32, u64)>,
    via: Seq<Seq<(u32, u64)>>,
    a: nat,
    b: nat,
    t: u32,
)
    requires
        row_within(from, via.len() as int),
        row_scales(from, a),
        scales(via, b),
    ensures
        hop_sum(scaled_row(from, a), scaled(via, b), t) == a * b * hop_sum(from, via, t),
        hop_reaches(scaled_row(from, a), scaled(via, b), t) == hop_reaches(from, via, t),
    decreases from.len(),
{
    let big = scaled_row(from, a);
    let wide = scaled(via, b);
    assert forall|i: int| 0 <= i < from.len() implies lists(
        #[trigger] wide[big[i].0 as int],
        t,
    ) == lists(via[from[i].0 as int], t) by {
        assert(from[i].0 < via.len());
        assert(row_scales(via[from[i].0 as int], b));
        lemma_row_weight_scales(via[from[i].0 as int], b, t);
    }
    if hop_reaches(big, wide, t) {
        let i = choose|i: int| 0 <= i < big.len() && lists(#[trigger] wide[big[i].0 as int], t);
        assert(lists(via[from[i].0 as int], t));
    }
    if hop_reaches(from, via, t) {
        let i = choose|i: int| 0 <= i < from.len() && lists(#[trigger] via[from[i].0 as int], t);
        assert(lists(wide[big[i].0 as int], t));
    }
    if from.len() > 0 {
        let rest = from.drop_last();
        let last = from[from.len() - 1];
        assert forall|i: int| 0 <= i < rest.len() implies (#[trigger] rest[i]).0 < via.len()
            && rest[i].1 * a <= u64::MAX by {
            assert(rest[i] == from[i]);
        }
        law_two_hops_scale(rest, via, a, b, t);
        assert(big.drop_last() =~= scaled_row(rest, a));
        assert(last.0 < via.len());
        assert(last.1 * a <= u64::MAX);
        assert(row_scales(via[last.0 as int], b));
        lemma_row_weight_scales(via[last.0 as int], b, t);
        let h = hop_sum(rest, via, t);
        let s = last.1 as nat;
        let w = row_weight(via[last.0 as int], t);
        assert(big.last().1 == s * a);
        assert(wide[big.last().0 as int] == scaled_row(via[last.0 as int], b));
        assert(a * b * (h + s * w) == a * b * h + (s * a) * (b * w)) by (nonlinear_arith);
    } else {
        assert(a * b * 0 == 0);
    }
}

/// Scaling by a positive factor keeps the ranking.
proof fn lemma_beats_scales(t1: u32, s1: nat, t2: u32, s2: nat, c: nat)
    requires
        c >= 1,
        beats(t1, s1, t2, s2),
    ensures
        beats(t1, s1 * c, t2, s2 * c),
{
    if s1 > s2 {
        assert(s1 * c > s2 * c) by (nonlinear_arith)
            requires
                s1 > s2,
                c >= 1,
        ;
    }
}

/// The product of scaled matrices is the scaled product: where `out` is the
/// product of `from` and `via`, each row cut to its `k` strongest entries,
/// `out` scaled by `a * b` is that of `from` scaled by `a` and `via` scaled
/// by `b`. The same entries are kept, in the same order. With one positive
/// factor `c` for all scores, every score of a product is multiplied by
/// `c * c`.
pub proof fn law_product_scales(
    out: Seq<Seq<(u32, u64)>>,
    from: Seq<Seq<(u32, u64)>>,
    via: Seq<Seq<(u32, u64)>>,
    k: nat,
    a: nat,
    b: nat,
)
    requires
        a >= 1,
        b >= 1,
        targets_within(from, via.len() as int),
        is_product(out, from, via, k),
        scales(from, a),
        scales(via, b),
        scales(out, a * b),
    ensures
        is_product(scaled(out, a * b), scaled(from, a), scaled(via, b), k),
{
    let c = a * b;
    assert(c >= 1) by (nonlinear_arith)
        requires
            a >= 1,
            b >= 1,
            c == a * b,
    ;
    assert forall|r: int| 0 <= r < out.len() implies is_top_k(
        #[trigger] scaled(out, c)[r],
        two_hop_scores(scaled(from, a)[r], scaled(via, b)),
        k,
    ) by {
        let row = out[r];
        let big = scaled_row(row, c);
        let scores = two_hop_scores(from[r], via);
        let big_scores = two_hop_scores(scaled_row(from[r], a), scaled(via, b));
        assert(is_top_k(row, scores, k));
        assert(row_within(from[r], via.len() as int));
        assert(row_scales(from[r], a));
        assert(row_scales(row, c));
        assert forall|t: u32| #[trigger]
            big_scores.contains_key(t) == scores.contains_key(t) && (scores.contains_key(t)
                ==> big_scores[t] == c * scores[t]) by {
            law_two_hops_scale(from[r], via, a, b, t);
        }
        assert forall|i: int| 0 <= i < big.len() implies (#[trigger] big[i]).0 == row[i].0
            && big[i].1 == row[i].1 * c by {
            assert(row[i].1 * c <= u64::MAX);
        }
        assert forall|i: int, j: int| 0 <= i < j < big.len() implies outranks(
            #[trigger] big[i],
            #[trigger] big[j],
        ) by {
            assert(outranks(row[i], row[j]));
            lemma_beats_scales(row[i].0, row[i].1 as nat, row[j].0, row[j].1 as nat, c);
        }
        assert forall|i: int| 0 <= i < big.len() implies big_scores.contains_key(
            (#[trigger] big[i]).0,
        ) && big_scores[big[i].0] == big[i].1 by {
            assert(scores.contains_key(row[i].0) && scores[row[i].0] == row[i].1);
            assert(big_scores.contains_key(row[i].0));
            assert(big_scores[row[i].0] == c * scores[row[i].0]);
            assert(c * (row[i].1 as nat) == row[i].1 * c) by (nonlinear_arith);
        }
        assert forall|t: u32| #[trigger] big_scores.contains_key(t) && !lists(big, t) implies big.len()
            == k && forall|i: int|
            0 <= i < big.len() ==> beats((#[trigger] big[i]).0, big[i].1 as nat, t, big_scores[t]) by {
            assert(scores.contains_key(t));
            if lists(row, t) {
                let i = choose|i: int| 0 <= i < row.len() && (#[trigger] row[i]).0 == t;
                assert(big[i].0 == t);
            }
            assert(big_scores[t] == c * scores[t]);
            assert forall|i: int| 0 <= i < big.len() implies beats(
                (#[trigger] big[i]).0,
                big[i].1 as nat,
                t,
                big_scores[t],
            ) by {
                assert(beats(row[i].0, row[i].1 as nat, t, scores[t]));
                lemma_beats_scales(row[i].0, row[i].1 as nat, t, scores[t], c);
                assert(c * scores[t] == scores[t] * c) by (nonlinear_arith);
            }
        }
    }
}

/// A user without ratings gets no recommendations: the product row of an
/// empty row is empty.
pub proof fn law_empty_row_stays_empty(row: Seq<(u32, u64)>, via: Seq<Seq<(u32, u64)>>, k: nat)
    requires
        is_top_k(row, two_hop_scores(Seq::<(u32, u64)>::empty(), via), k),
    ensures
        row.len() == 0,
{
    if row.len() > 0 {
        assert(two_hop_scores(Seq::<(u32, u64)>::empty(), via).contains_key(row[0].0));
    }
}

/// The links with every weight multiplied by `c`.
pub open spec fn scaled_links(links: Seq<(u32, u32, u64)>, c: nat) -> Seq<(u32, u32, u64)> {
    Seq::new(links.len(), |n: int| (links[n].0, links[n].1, (links[n].2 * c) as u64))
}

/// Every weight of the links, multiplied by `c`, fits in 64 bits.
pub open spec fn links_scale(links: Seq<(u32, u32, u64)>, c: nat) -> bool {
    forall|n: int| 0 <= n < links.len() ==> (#[trigger] links[n]).2 * c <= u64::MAX
}

/// With every weight multiplied by `c`, the total of every cell is multiplied
/// by `c`, and every row lists the same targets in the same order.
pub proof fn law_totals_scale(links: Seq<(u32, u32, u64)>, c: nat, s: int, t: u32)
    requires
        links_scale(links, c),
    ensures
        cell_total(scaled_links(links, c), s, t) == c * cell_total(links, s, t),
        touched(scaled_links(links, c), s) == touched(links, s),
    decreases links.len(),
{
    let big = scaled_links(links, c);
    if links.len() > 0 {
        let rest = links.drop_last();
        assert forall|n: int| 0 <= n < rest.len() implies (#[trigger] rest[n]).2 * c
            <= u64::MAX by {
            assert(rest[n] == links[n]);
        }
        law_totals_scale(rest, c, s, t);
        assert(big.drop_last() =~= scaled_links(rest, c));
        assert(links[links.len() - 1].2 * c <= u64::MAX);
        let h = cell_total(rest, s, t);
        let w = links.last().2 as nat;
        assert(big.last().2 == w * c);
        assert(c * (h + w) == c * h + w * c) by (nonlinear_arith);
    } else {
        assert(c * 0 == 0);
    }
}

/// Pruning scales with the scores: the entries that reach `min_rating` are
/// those that, multiplied by `c`, reach `min_rating * c`.
pub proof fn lemma_pruning_scales(row: Seq<(u32, u64)>, min_rating: u64, c: nat)
    requires
        c >= 1,
        min_rating * c <= u64::MAX,
        row_scales(row, c),
    ensures
        scaled_row(row, c).filter(keeps((min_rating * c) as u64)) == scaled_row(
            row.filter(keeps(min_rating)),
            c,
        ),
    decreases row.len(),
{
    reveal(Seq::filter);
    let high = (min_rating * c) as u64;
    if row.len() > 0 {
        let rest = row.drop_last();
        let last = row[row.len() - 1];
        assert forall|i: int| 0 <= i < rest.len() implies (#[trigger] rest[i]).1 * c
            <= u64::MAX by {
            assert(rest[i] == row[i]);
        }
        lemma_pruning_scales(rest, min_rating, c);
        assert(scaled_row(row, c).drop_last() =~= scaled_row(rest, c));
        assert(last.1 * c <= u64::MAX);
        assert(scaled_row(row, c).last() == (last.0, (last.1 * c) as u64));
        assert((last.1 >= min_rating) == (last.1 * c >= min_rating * c)) by (nonlinear_arith)
            requires
                c >= 1,
        ;
        if last.1 >= min_rating {
            assert(scaled_row(rest.filter(keeps(min_rating)).push(last), c) =~= scaled_row(
                rest.filter(keeps(min_rating)),
                c,
            ).push((last.0, (last.1 * c) as u64)));
        }
    } else {
        assert(scaled_row(row, c) =~= row);
        assert(scaled_row(row.filter(keeps(min_rating)), c) =~= row);
    }
}

/// Aggregation scales with the weights: with every weight and the minimum
/// rating multiplied by a positive `c`, the aggregated matrix holds the same
/// entries in the same order, each score multiplied by `c`.
pub proof fn law_scores_scale(links: Seq<(u32, u32, u64)>, sources: nat, min_rating: u64, c: nat)
    requires
        c >= 1,
        min_rating * c <= u64::MAX,
        links_scale(links, c),
        forall|s: int, t: u32| c * #[trigger] cell_total(links, s, t) <= u64::MAX,
    ensures
        pruned(raw_rows(scaled_links(links, c), sources), (min_rating * c) as u64) == scaled(
            pruned(raw_rows(links, sources), min_rating),
            c,
        ),
{
    let big = scaled_links(links, c);
    let high = (min_rating * c) as u64;
    let left = pruned(raw_rows(big, sources), high);
    let right = scaled(pruned(raw_rows(links, sources), min_rating), c);
    assert forall|s: int| 0 <= s < sources implies left[s] == right[s] by {
        let raw = raw_row(links, s);
        assert forall|p: int| 0 <= p < raw.len() implies raw_row(big, s)[p] == scaled_row(
            raw,
            c,
        )[p] && (#[trigger] raw[p]).1 * c <= u64::MAX by {
            let t = touched(links, s)[p];
            law_totals_scale(links, c, s, t);
            assert(c * cell_total(links, s, t) <= u64::MAX);
            assert(cell_total(links, s, t) <= c * cell_total(links, s, t)) by (nonlinear_arith)
                requires
                    c >= 1,
            ;
            assert(c * cell_total(links, s, t) == cell_total(links, s, t) * c) by (nonlinear_arith);
        }
        assert(raw_row(big, s).len() == raw.len()) by {
            law_totals_scale(links, c, s, 0u32);
        }
        assert(raw_row(big, s) =~= scaled_row(raw, c));
        lemma_pruning_scales(raw, min_rating, c);
    }
    assert(left =~= right);
}

/// Three weighted legs multiply: the final scores join the ratings with an
/// affinity that was itself joined from two legs of ratings, so with every
/// rating multiplied by a positive `c`, affinity is multiplied by `c * c` and
/// every final score by `c * c * c`. The same entries are kept in the same
/// order.
pub proof fn law_final_scores_scale(
    user_repo: Seq<Seq<(u32, u64)>>,
    repo_user: Seq<Seq<(u32, u64)>>,
    affinity: Seq<Seq<(u32, u64)>>,
    scores: Seq<Seq<(u32, u64)>>,
    k: nat,
    c: nat,
)
    requires
        c >= 1,
        targets_within(repo_user, user_repo.len() as int),
        targets_within(user_repo, affinity.len() as int),
        is_product(affinity, repo_user, user_repo, k),
        is_product(scores, user_repo, affinity, k),
        scales(user_repo, c),
        scales(repo_user, c),
        scales(affinity, c * c),
        scales(scores, c * (c * c)),
    ensures
        is_product(scaled(affinity, c * c), scaled(repo_user, c), scaled(user_repo, c), k),
        is_product(scaled(scores, c * (c * c)), scaled(user_repo, c), scaled(affinity, c * c), k),
{
    assert(c * c >= 1) by (nonlinear_arith)
        requires
            c >= 1,
    ;
    law_product_scales(affinity, repo_user, user_repo, k, c, c);
    law_product_scales(scores, user_repo, affinity, k, c, c * c);
}

/// Without events there is nothing to recommend: the pipeline does not fail,
/// the registry is empty, and the result has no rows.
pub proof fn law_empty_input(min_rating: u64, k: nat)
    ensures
        failure(Seq::<InputItem>::empty(), min_rating, k) is None,
        user_names(Seq::<InputItem>::empty()).len() == 0,
        repo_names(Seq::<InputItem>::empty()).len() == 0,
        final_scores(Seq::<InputItem>::empty(), min_rating, k).len() == 0,
{
    let events = Seq::<InputItem>::empty();
    assert(users_of(events).len() == 0);
    assert(repos_of(events).len() == 0);
    assert(ratings_of(events, user_names(events), repo_names(events)).len() == 0);
}

} // verus!
