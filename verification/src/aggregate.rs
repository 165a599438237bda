//! Event aggregation: events are resolved against the registry, their
//! weights are added up per (source, target) cell, and each row keeps the
//! cells that reach the minimum rating.
//!
//! The same events give two matrices: from users to repositories and, with
//! source and target exchanged, from repositories to users.

use vstd::prelude::*;
use std::collections::HashMap;
use crate::error::PipelineError;
use crate::event::{category_weight, compute_score, InputItem};
use crate::matrix::rows_view;
use crate::registry::NameIndex;

verus! {

broadcast use vstd::std_specs::hash::group_hash_axioms;

/// What one event adds to the scores: the index of its user, the index of its
/// repository and the weight of its category. The user is looked up first,
/// then the repository, then the category, and the first that is unknown
/// decides the refusal.
pub open spec fn resolve_event(
    event: InputItem,
    users: Seq<Seq<char>>,
    repos: Seq<Seq<char>>,
) -> Result<(u32, u32, u64), PipelineError> {
    if !users.contains(event.user@) {
        Err(PipelineError::UnknownUser)
    } else if !repos.contains(event.repo@) {
        Err(PipelineError::UnknownRepo)
    } else {
        match category_weight(event.event_type@) {
            Some(w) => Ok((users.index_of(event.user@) as u32, repos.index_of(event.repo@) as u32, w)),
            None => Err(PipelineError::UnknownCategory),
        }
    }
}

/// Every event resolves.
pub open spec fn all_resolve(
    events: Seq<InputItem>,
    users: Seq<Seq<char>>,
    repos: Seq<Seq<char>>,
) -> bool {
    forall|n: int| 0 <= n < events.len() ==> resolve_event(#[trigger] events[n], users, repos) is Ok
}

/// The first event that does not resolve is refused with `error`.
pub open spec fn refused_with(
    events: Seq<InputItem>,
    users: Seq<Seq<char>>,
    repos: Seq<Seq<char>>,
    error: PipelineError,
) -> bool {
    exists|n: int|
        0 <= n < events.len() && resolve_event(#[trigger] events[n], users, repos) == Err::<
            (u32, u32, u64),
            PipelineError,
        >(error) && forall|m: int|
            0 <= m < n ==> resolve_event(#[trigger] events[m], users, repos) is Ok
}

/// The links of the events from users to repositories, one per event:
/// `(user, repository, weight)`.
pub open spec fn ratings_of(
    events: Seq<InputItem>,
    users: Seq<Seq<char>>,
    repos: Seq<Seq<char>>,
) -> Seq<(u32, u32, u64)> {
    Seq::new(
        events.len(),
        |n: int|
            match resolve_event(events[n], users, repos) {
                Ok(link) => link,
                Err(_) => (0u32, 0u32, 0u64),
            },
    )
}

/// The same links with source and target exchanged.
pub open spec fn flipped(links: Seq<(u32, u32, u64)>) -> Seq<(u32, u32, u64)> {
    Seq::new(links.len(), |n: int| (links[n].1, links[n].0, links[n].2))
}

/// The sum of the weights of exactly those links that lead from source `s`
/// to target `t`.
pub open spec fn cell_total(links: Seq<(u32, u32, u64)>, s: int, t: u32) -> nat
    decreases links.len(),
{
    if links.len() == 0 {
        0
    } else {
        cell_total(links.drop_last(), s, t) + if links.last().0 == s && links.last().1 == t {
            links.last().2 as nat
        } else {
            0
        }
    }
}

/// The targets that source `s` has a link to, in order of first appearance.
pub open spec fn touched(links: Seq<(u32, u32, u64)>, s: int) -> Seq<u32>
    decreases links.len(),
{
    if links.len() == 0 {
        Seq::empty()
    } else {
        let before = touched(links.drop_last(), s);
        if links.last().0 == s && !before.contains(links.last().1) {
            before.push(links.last().1)
        } else {
            before
        }
    }
}

/// The row of source `s` before pruning: one entry for each target that `s`
/// has a link to, with the total of the cell.
pub open spec fn raw_row(links: Seq<(u32, u32, u64)>, s: int) -> Seq<(u32, u64)> {
    Seq::new(
        touched(links, s).len(),
        |p: int| (touched(links, s)[p], cell_total(links, s, touched(links, s)[p]) as u64),
    )
}

/// The rows of `sources` sources before pruning.
pub open spec fn raw_rows(links: Seq<(u32, u32, u64)>, sources: nat) -> Seq<Seq<(u32, u64)>> {
    Seq::new(sources, |s: int| raw_row(links, s))
}

/// Whether an entry reaches the minimum rating.
pub open spec fn keeps(min_rating: u64) -> spec_fn((u32, u64)) -> bool {
    |entry: (u32, u64)| entry.1 >= min_rating
}

/// The rows with the entries that reach the minimum rating, in their order.
pub open spec fn pruned(rows: Seq<Seq<(u32, u64)>>, min_rating: u64) -> Seq<Seq<(u32, u64)>> {
    Seq::new(rows.len(), |s: int| rows[s].filter(keeps(min_rating)))
}

/// Every link starts at a source below `sources`.
pub open spec fn sources_within(links: Seq<(u32, u32, u64)>, sources: int) -> bool {
    forall|n: int| 0 <= n < links.len() ==> (#[trigger] links[n]).0 < sources
}

/// The total of some cell exceeds 64 bits.
pub open spec fn totals_overflow(links: Seq<(u32, u32, u64)>) -> bool {
    exists|s: int, t: u32| #[trigger] cell_total(links, s, t) > u64::MAX
}

/// What `accumulate` returns for each input.
pub open spec fn accumulate_result(
    result: Result<Vec<Vec<(u32, u64)>>, PipelineError>,
    links: Seq<(u32, u32, u64)>,
    sources: nat,
) -> bool {
    match result {
        Ok(rows) => {
            &&& sources_within(links, sources as int)
            &&& !totals_overflow(links)
            &&& rows_view(rows@) == raw_rows(links, sources)
        },
        Err(PipelineError::IndexOutOfRange) => !sources_within(links, sources as int),
        Err(PipelineError::ScoreOverflow) => {
            &&& sources_within(links, sources as int)
            &&& totals_overflow(links)
        },
        Err(_) => false,
    }
}

/// The links that an aggregation adds up: those of the events, exchanged for
/// the direction from repositories to users.
pub open spec fn links_of(
    events: Seq<InputItem>,
    users: Seq<Seq<char>>,
    repos: Seq<Seq<char>>,
    by_repo: bool,
) -> Seq<(u32, u32, u64)> {
    if by_repo {
        flipped(ratings_of(events, users, repos))
    } else {
        ratings_of(events, users, repos)
    }
}

/// What an aggregation returns for each input: one row per source, each row
/// with the totals of the targets it has links to that reach the minimum
/// rating, in order of first appearance.
pub open spec fn score_result(
    result: Result<Vec<Vec<(u32, u64)>>, PipelineError>,
    events: Seq<InputItem>,
    users: Seq<Seq<char>>,
    repos: Seq<Seq<char>>,
    min_rating: u64,
    by_repo: bool,
) -> bool {
    let links = links_of(events, users, repos, by_repo);
    let sources = if by_repo {
        repos.len()
    } else {
        users.len()
    };
    match result {
        Ok(scores) => {
            &&& all_resolve(events, users, repos)
            &&& !totals_overflow(links)
            &&& rows_view(scores@) == pruned(raw_rows(links, sources), min_rating)
        },
        Err(PipelineError::ScoreOverflow) => {
            &&& all_resolve(events, users, repos)
            &&& totals_overflow(links)
        },
        Err(error) => refused_with(events, users, repos, error),
    }
}

/// Reading one more link adds its weight to its cell and to no other.
pub proof fn lemma_cell_total_step(links: Seq<(u32, u32, u64)>, n: int, s: int, t: u32)
    requires
        0 <= n < links.len(),
    ensures
        cell_total(links.take(n + 1), s, t) == cell_total(links.take(n), s, t) + if links[n].0 == s
            && links[n].1 == t {
            links[n].2 as nat
        } else {
            0
        },
{
    assert(links.take(n + 1).drop_last() =~= links.take(n));
}

/// The total of a cell never shrinks as more links are read.
pub proof fn lemma_cell_total_grows(links: Seq<(u32, u32, u64)>, n: int, s: int, t: u32)
    requires
        0 <= n <= links.len(),
    ensures
        cell_total(links.take(n), s, t) <= cell_total(links, s, t),
    decreases links.len() - n,
{
    if n < links.len() {
        lemma_cell_total_step(links, n, s, t);
        lemma_cell_total_grows(links, n + 1, s, t);
    } else {
        assert(links.take(n) =~= links);
    }
}

/// Reading one more link adds its target to the row of its source if the row
/// does not have it yet.
pub proof fn lemma_touched_step(links: Seq<(u32, u32, u64)>, n: int, s: int)
    requires
        0 <= n < links.len(),
    ensures
        touched(links.take(n + 1), s) == if links[n].0 == s && !touched(
            links.take(n),
            s,
        ).contains(links[n].1) {
            touched(links.take(n), s).push(links[n].1)
        } else {
            touched(links.take(n), s)
        },
{
    assert(links.take(n + 1).drop_last() =~= links.take(n));
}

/// A target that the row of a source does not list has total zero: the row
/// lists every target that the source has a link to.
pub proof fn lemma_untouched_total(links: Seq<(u32, u32, u64)>, s: int, t: u32)
    ensures
        !touched(links, s).contains(t) ==> cell_total(links, s, t) == 0,
    decreases links.len(),
{
    if links.len() > 0 {
        let rest = links.drop_last();
        lemma_untouched_total(rest, s, t);
        let before = touched(rest, s);
        let after = touched(links, s);
        if !after.contains(t) {
            if before.contains(t) {
                let p = choose|p: int| 0 <= p < before.len() && before[p] == t;
                assert(after[p] == t);
            }
            if links.last().0 == s && links.last().1 == t {
                assert(after[after.len() - 1] == t);
            }
        }
    }
}

/// The links of the events, each with the indices of its user and its
/// repository and the weight of its category.
///
/// Fails with the refusal of the first event that does not resolve:
/// `UnknownUser`, `UnknownRepo` or `UnknownCategory`.
pub fn resolve(data: &[InputItem], uid_map: &NameIndex, rid_map: &NameIndex) -> (result: Result<
    Vec<(u32, u32, u64)>,
    PipelineError,
>)
    ensures
        match result {
            Ok(ratings) => {
                &&& all_resolve(data@, uid_map@, rid_map@)
                &&& ratings@ == ratings_of(data@, uid_map@, rid_map@)
                &&& sources_within(ratings@, uid_map@.len() as int)
                &&& sources_within(flipped(ratings@), rid_map@.len() as int)
            },
            Err(error) => refused_with(data@, uid_map@, rid_map@, error),
        },
{
    let ghost users = uid_map@;
    let ghost repos = rid_map@;
    proof {
        use_type_invariant(uid_map);
        use_type_invariant(rid_map);
        uid_map.lemma_names_distinct();
        rid_map.lemma_names_distinct();
    }
    let mut ratings: Vec<(u32, u32, u64)> = Vec::new();
    let mut n: usize = 0;
    while n < data.len()
        invariant
            n <= data.len(),
            users == uid_map@,
            repos == rid_map@,
            users.no_duplicates(),
            repos.no_duplicates(),
            ratings.len() == n,
            forall|m: int|
                0 <= m < n ==> resolve_event(#[trigger] data@[m], users, repos) == Ok::<
                    (u32, u32, u64),
                    PipelineError,
                >(ratings@[m]),
            forall|m: int| 0 <= m < n ==> (#[trigger] ratings@[m]).0 < users.len(),
            forall|m: int| 0 <= m < n ==> (#[trigger] ratings@[m]).1 < repos.len(),
        decreases data.len() - n,
    {
        let event: &InputItem = &data[n];
        let uid: u32 = match uid_map.get(event.user.as_str()) {
            Some(uid) => uid,
            None => {
                return Err(PipelineError::UnknownUser);
            },
        };
        let rid: u32 = match rid_map.get(event.repo.as_str()) {
            Some(rid) => rid,
            None => {
                return Err(PipelineError::UnknownRepo);
            },
        };
        let weight: u64 = match compute_score(event.event_type.as_str()) {
            Ok(weight) => weight,
            Err(error) => {
                return Err(error);
            },
        };
        proof {
            assert(users[uid as int] == event.user@);
            assert(repos[rid as int] == event.repo@);
            assert(users.index_of(event.user@) == uid);
            assert(repos.index_of(event.repo@) == rid);
        }
        ratings.push((uid, rid, weight));
        n = n + 1;
    }
    proof {
        assert(ratings@ =~= ratings_of(data@, users, repos));
        assert forall|m: int| 0 <= m < flipped(ratings@).len() implies (#[trigger] flipped(
            ratings@,
        )[m]).0 < repos.len() by {
            assert(ratings@[m].1 < repos.len());
        }
    }
    Ok(ratings)
}

/// The same links with source and target exchanged.
pub fn flip(links: &Vec<(u32, u32, u64)>) -> (out: Vec<(u32, u32, u64)>)
    ensures
        out@ == flipped(links@),
{
    let mut out: Vec<(u32, u32, u64)> = Vec::new();
    let mut n: usize = 0;
    while n < links.len()
        invariant
            n <= links.len(),
            out.len() == n,
            forall|m: int| 0 <= m < n ==> out@[m] == (links@[m].1, links@[m].0, links@[m].2),
        decreases links.len() - n,
    {
        let link: (u32, u32, u64) = links[n];
        out.push((link.1, link.0, link.2));
        n = n + 1;
    }
    proof {
        assert(out@ =~= flipped(links@));
    }
    out
}

/// The state of one row of `accumulate` after the first `n` links: it lists
/// the targets touched so far in order, each with the total so far, and
/// `place` finds the entry of a target.
spec fn row_accumulated(
    row: Seq<(u32, u64)>,
    place: Map<u32, usize>,
    links: Seq<(u32, u32, u64)>,
    n: int,
    s: int,
) -> bool {
    &&& row.len() == touched(links.take(n), s).len()
    &&& forall|p: int|
        0 <= p < row.len() ==> (#[trigger] row[p]).0 == touched(links.take(n), s)[p]
    &&& forall|p: int|
        0 <= p < row.len() ==> (#[trigger] row[p]).1 == cell_total(links.take(n), s, row[p].0)
    &&& forall|p: int|
        0 <= p < row.len() ==> place.contains_key((#[trigger] row[p]).0) && place[row[p].0] == p
    &&& forall|t: u32| #[trigger]
        place.contains_key(t) ==> place[t] < row.len() && row[place[t] as int].0 == t
}

/// The row of a source that link `n` does not start at is as it was.
proof fn lemma_row_untouched(
    row: Seq<(u32, u64)>,
    place: Map<u32, usize>,
    links: Seq<(u32, u32, u64)>,
    n: int,
    s: int,
)
    requires
        0 <= n < links.len(),
        links[n].0 != s,
        row_accumulated(row, place, links, n, s),
    ensures
        row_accumulated(row, place, links, n + 1, s),
{
    lemma_touched_step(links, n, s);
    assert forall|p: int| 0 <= p < row.len() implies (#[trigger] row[p]).1 == cell_total(
        links.take(n + 1),
        s,
        row[p].0,
    ) by {
        lemma_cell_total_step(links, n, s, row[p].0);
    }
}

/// Where the row has an entry for the target of link `n`, the weight of the
/// link is added to that entry.
proof fn lemma_row_bumped(
    row: Seq<(u32, u64)>,
    place: Map<u32, usize>,
    links: Seq<(u32, u32, u64)>,
    n: int,
    sum: u64,
)
    requires
        0 <= n < links.len(),
        row_accumulated(row, place, links, n, links[n].0 as int),
        place.contains_key(links[n].1),
        sum == row[place[links[n].1] as int].1 + links[n].2,
    ensures
        row_accumulated(
            row.update(place[links[n].1] as int, (links[n].1, sum)),
            place,
            links,
            n + 1,
            links[n].0 as int,
        ),
{
    let s = links[n].0 as int;
    let t = links[n].1;
    let p = place[t] as int;
    let after = row.update(p, (t, sum));
    lemma_touched_step(links, n, s);
    assert(touched(links.take(n), s)[p] == t);
    assert(touched(links.take(n), s).contains(t));
    assert forall|q: int| 0 <= q < after.len() implies (#[trigger] after[q]).1 == cell_total(
        links.take(n + 1),
        s,
        after[q].0,
    ) by {
        lemma_cell_total_step(links, n, s, after[q].0);
        if q != p {
            assert(after[q] == row[q]);
            assert(place[row[q].0] == q);
        }
    }
    assert forall|q: int| 0 <= q < after.len() implies place.contains_key((#[trigger] after[q]).0)
        && place[after[q].0] == q by {
        assert(after[q].0 == row[q].0);
    }
}

/// Where the row has no entry for the target of link `n`, the link opens one
/// at the end of the row.
proof fn lemma_row_extended(
    row: Seq<(u32, u64)>,
    place: Map<u32, usize>,
    links: Seq<(u32, u32, u64)>,
    n: int,
)
    requires
        0 <= n < links.len(),
        row_accumulated(row, place, links, n, links[n].0 as int),
        !place.contains_key(links[n].1),
        row.len() <= usize::MAX,
    ensures
        row_accumulated(
            row.push((links[n].1, links[n].2)),
            place.insert(links[n].1, row.len() as usize),
            links,
            n + 1,
            links[n].0 as int,
        ),
{
    let s = links[n].0 as int;
    let t = links[n].1;
    let p = row.len() as int;
    let after = row.push((t, links[n].2));
    let places = place.insert(t, row.len() as usize);
    let before = touched(links.take(n), s);
    lemma_touched_step(links, n, s);
    if before.contains(t) {
        let q = choose|q: int| 0 <= q < before.len() && before[q] == t;
        assert(row[q].0 == t);
    }
    lemma_untouched_total(links.take(n), s, t);
    assert forall|q: int| 0 <= q < after.len() implies (#[trigger] after[q]).1 == cell_total(
        links.take(n + 1),
        s,
        after[q].0,
    ) by {
        lemma_cell_total_step(links, n, s, after[q].0);
        if q < p {
            assert(after[q] == row[q]);
            assert(place.contains_key(row[q].0));
        }
    }
    assert forall|q: int| 0 <= q < after.len() implies (#[trigger] after[q]).0 == touched(
        links.take(n + 1),
        s,
    )[q] by {
        if q < p {
            assert(after[q] == row[q]);
        }
    }
    assert forall|q: int| 0 <= q < after.len() implies places.contains_key((#[trigger] after[q]).0)
        && places[after[q].0] == q by {
        if q < p {
            assert(after[q] == row[q]);
            assert(place.contains_key(row[q].0));
        }
    }
    assert forall|u: u32| #[trigger] places.contains_key(u) implies places[u] < after.len()
        && after[places[u] as int].0 == u by {
        if u != t {
            assert(place.contains_key(u));
            assert(after[place[u] as int] == row[place[u] as int]);
        }
    }
}

/// Once every link has been read, the rows are those of the links, and every
/// total fits in 64 bits.
proof fn lemma_rows_accumulated(
    rows: Seq<Vec<(u32, u64)>>,
    places: Seq<Map<u32, usize>>,
    links: Seq<(u32, u32, u64)>,
)
    requires
        sources_within(links, rows.len() as int),
        places.len() == rows.len(),
        forall|a: int|
            0 <= a < rows.len() ==> row_accumulated(
                (#[trigger] rows[a])@,
                places[a],
                links,
                links.len() as int,
                a,
            ),
    ensures
        !totals_overflow(links),
        rows_view(rows) == raw_rows(links, rows.len()),
{
    assert(links.take(links.len() as int) =~= links);
    assert forall|a: int, t: u32| #[trigger] cell_total(links, a, t) <= u64::MAX by {
        lemma_untouched_total(links, a, t);
        if touched(links, a).contains(t) {
            let p = choose|p: int| 0 <= p < touched(links, a).len() && touched(links, a)[p] == t;
            if 0 <= a < rows.len() {
                assert(rows[a]@[p].0 == t);
                assert(rows[a]@[p].1 == cell_total(links, a, t));
            } else {
                lemma_touched_is_linked(links, a, p);
            }
        }
    }
    assert forall|a: int| 0 <= a < rows.len() implies #[trigger] rows_view(rows)[a] == raw_row(
        links,
        a,
    ) by {
        let row = rows[a]@;
        assert forall|p: int| 0 <= p < row.len() implies row[p] == raw_row(links, a)[p] by {
            assert(row[p].0 == touched(links, a)[p]);
            assert(row[p].1 == cell_total(links, a, row[p].0));
        }
        assert(row =~= raw_row(links, a));
    }
    assert(rows_view(rows) =~= raw_rows(links, rows.len()));
}

/// The maps of a sequence of hash maps.
spec fn maps_view(places: Seq<HashMap<u32, usize>>) -> Seq<Map<u32, usize>> {
    Seq::new(places.len(), |a: int| places[a]@)
}

/// The weights of the links added up per cell: one row per source, each row
/// with one entry for each target that the source has a link to, in order of
/// first appearance, with the sum of the weights of the links to it.
///
/// Fails with `IndexOutOfRange` where a link starts at a source that is not
/// below `sources`, and otherwise with `ScoreOverflow` where the total of a
/// cell exceeds 64 bits.
pub fn accumulate(links: &Vec<(u32, u32, u64)>, sources: usize) -> (result: Result<
    Vec<Vec<(u32, u64)>>,
    PipelineError,
>)
    ensures
        accumulate_result(result, links@, sources as nat),
{
    let ghost l = links@;
    let mut n: usize = 0;
    while n < links.len()
        invariant
            n <= links.len(),
            l == links@,
            forall|m: int| 0 <= m < n ==> (#[trigger] l[m]).0 < sources,
        decreases links.len() - n,
    {
        if links[n].0 as usize >= sources {
            return Err(PipelineError::IndexOutOfRange);
        }
        n = n + 1;
    }
    let mut rows: Vec<Vec<(u32, u64)>> = Vec::new();
    let mut places: Vec<HashMap<u32, usize>> = Vec::new();
    let mut s: usize = 0;
    while s < sources
        invariant
            s <= sources,
            rows.len() == s,
            places.len() == s,
            forall|a: int| 0 <= a < s ==> (#[trigger] rows@[a])@.len() == 0,
            forall|a: int| 0 <= a < s ==> (#[trigger] places@[a])@ == Map::<u32, usize>::empty(),
        decreases sources - s,
    {
        rows.push(Vec::new());
        places.push(HashMap::new());
        s = s + 1;
    }
    n = 0;
    while n < links.len()
        invariant
            n <= links.len(),
            l == links@,
            sources_within(l, sources as int),
            rows.len() == sources,
            places.len() == sources,
            forall|a: int|
                0 <= a < sources ==> row_accumulated(
                    (#[trigger] rows@[a])@,
                    places@[a]@,
                    l,
                    n as int,
                    a,
                ),
        decreases links.len() - n,
    {
        let source: usize = links[n].0 as usize;
        let target: u32 = links[n].1;
        let weight: u64 = links[n].2;
        let ghost old_rows = rows@;
        let ghost old_places = places@;
        proof {
            assert(row_accumulated(
                old_rows[source as int]@,
                old_places[source as int]@,
                l,
                n as int,
                source as int,
            ));
        }
        match places[source].get(&target) {
            Some(found) => {
                let p: usize = *found;
                let sum: u64 = match rows[source][p].1.checked_add(weight) {
                    Some(sum) => sum,
                    None => {
                        proof {
                            lemma_cell_total_step(l, n as int, source as int, target);
                            lemma_cell_total_grows(l, n + 1, source as int, target);
                            assert(cell_total(l, source as int, target) > u64::MAX);
                        }
                        return Err(PipelineError::ScoreOverflow);
                    },
                };
                rows[source][p] = (target, sum);
                proof {
                    lemma_row_bumped(
                        old_rows[source as int]@,
                        old_places[source as int]@,
                        l,
                        n as int,
                        sum,
                    );
                    assert(rows@[source as int]@ =~= old_rows[source as int]@.update(
                        p as int,
                        (target, sum),
                    ));
                }
            },
            None => {
                let p: usize = rows[source].len();
                places[source].insert(target, p);
                rows[source].push((target, weight));
                proof {
                    lemma_row_extended(
                        old_rows[source as int]@,
                        old_places[source as int]@,
                        l,
                        n as int,
                    );
                }
            },
        }
        proof {
            assert forall|a: int| 0 <= a < sources implies row_accumulated(
                (#[trigger] rows@[a])@,
                places@[a]@,
                l,
                n + 1,
                a,
            ) by {
                if a != source {
                    assert(rows@[a] == old_rows[a]);
                    assert(places@[a] == old_places[a]);
                    lemma_row_untouched(old_rows[a]@, old_places[a]@, l, n as int, a);
                }
            }
        }
        n = n + 1;
    }
    proof {
        lemma_rows_accumulated(rows@, maps_view(places@), l);
    }
    Ok(rows)
}

/// Every target that a row lists was put there by a link from the row's
/// source to that target.
pub proof fn lemma_touched_is_linked(links: Seq<(u32, u32, u64)>, s: int, p: int)
    requires
        0 <= p < touched(links, s).len(),
    ensures
        exists|n: int|
            0 <= n < links.len() && (#[trigger] links[n]).0 == s && links[n].1 == touched(
                links,
                s,
            )[p],
    decreases links.len(),
{
    if links.len() > 0 {
        let rest = links.drop_last();
        if p < touched(rest, s).len() {
            lemma_touched_is_linked(rest, s, p);
            let n = choose|n: int|
                0 <= n < rest.len() && (#[trigger] rest[n]).0 == s && rest[n].1 == touched(
                    rest,
                    s,
                )[p];
            assert(links[n].0 == s && links[n].1 == touched(links, s)[p]);
        } else {
            assert(links[links.len() - 1].0 == s && links[links.len() - 1].1 == touched(
                links,
                s,
            )[p]);
        }
    }
}

/// Aggregation is symmetric in its direction: with source and target
/// exchanged, every cell holds the total of the cell that mirrors it.
pub proof fn law_flip_transposes(links: Seq<(u32, u32, u64)>, s: u32, t: u32)
    ensures
        cell_total(flipped(links), t as int, s) == cell_total(links, s as int, t),
    decreases links.len(),
{
    if links.len() > 0 {
        law_flip_transposes(links.drop_last(), s, t);
        assert(flipped(links).drop_last() =~= flipped(links.drop_last()));
    }
}

/// A cell whose source is no 32-bit index has total zero.
pub proof fn lemma_cell_total_no_source(links: Seq<(u32, u32, u64)>, s: int, t: u32)
    requires
        s < 0 || s > u32::MAX,
    ensures
        cell_total(links, s, t) == 0,
    decreases links.len(),
{
    if links.len() > 0 {
        lemma_cell_total_no_source(links.drop_last(), s, t);
    }
}

/// The totals of one direction fit in 64 bits exactly when those of the
/// other direction do.
pub proof fn lemma_flip_overflow(links: Seq<(u32, u32, u64)>)
    ensures
        totals_overflow(flipped(links)) == totals_overflow(links),
{
    if totals_overflow(flipped(links)) {
        let (s, t) = choose|s: int, t: u32| #[trigger]
            cell_total(flipped(links), s, t) > u64::MAX;
        if s < 0 || s > u32::MAX {
            lemma_cell_total_no_source(flipped(links), s, t);
        } else {
            law_flip_transposes(links, t, s as u32);
            assert(cell_total(links, t as int, s as u32) > u64::MAX);
        }
    }
    if totals_overflow(links) {
        let (s, t) = choose|s: int, t: u32| #[trigger] cell_total(links, s, t) > u64::MAX;
        if s < 0 || s > u32::MAX {
            lemma_cell_total_no_source(links, s, t);
        } else {
            law_flip_transposes(links, s as u32, t);
            assert(cell_total(flipped(links), t as int, s as u32) > u64::MAX);
        }
    }
}

/// The rows with the entries that reach the minimum rating; entries below it
/// are dropped, and those that stay keep their order and their scores.
pub fn prune(rows: Vec<Vec<(u32, u64)>>, min_rating: u64) -> (out: Vec<Vec<(u32, u64)>>)
    ensures
        rows_view(out@) == pruned(rows_view(rows@), min_rating),
{
    let mut out: Vec<Vec<(u32, u64)>> = Vec::new();
    let mut s: usize = 0;
    while s < rows.len()
        invariant
            s <= rows.len(),
            out.len() == s,
            forall|a: int| 0 <= a < s ==> (#[trigger] out@[a])@ == rows@[a]@.filter(keeps(min_rating)),
        decreases rows.len() - s,
    {
        let row: &Vec<(u32, u64)> = &rows[s];
        let mut kept: Vec<(u32, u64)> = Vec::new();
        let mut p: usize = 0;
        proof {
            reveal(Seq::filter);
            assert(row@.take(0).filter(keeps(min_rating)) =~= Seq::<(u32, u64)>::empty());
        }
        while p < row.len()
            invariant
                p <= row.len(),
                kept@ == row@.take(p as int).filter(keeps(min_rating)),
            decreases row.len() - p,
        {
            proof {
                assert(row@.take(p + 1) =~= row@.take(p as int).push(row@[p as int]));
                row@.take(p as int).lemma_filter_push(row@[p as int], keeps(min_rating));
            }
            if row[p].1 >= min_rating {
                kept.push(row[p]);
            }
            p = p + 1;
        }
        proof {
            assert(row@.take(row@.len() as int) =~= row@);
        }
        out.push(kept);
        s = s + 1;
    }
    proof {
        assert(rows_view(out@) =~= pruned(rows_view(rows@), min_rating));
    }
    out
}

/// The aggregation in one direction: resolve, add up, prune.
fn aggregate(
    data: &[InputItem],
    uid_map: &NameIndex,
    rid_map: &NameIndex,
    min_rating: u64,
    by_repo: bool,
) -> (result: Result<Vec<Vec<(u32, u64)>>, PipelineError>)
    ensures
        score_result(result, data@, uid_map@, rid_map@, min_rating, by_repo),
{
    let ratings: Vec<(u32, u32, u64)> = match resolve(data, uid_map, rid_map) {
        Ok(ratings) => ratings,
        Err(error) => {
            return Err(error);
        },
    };
    let accumulated: Result<Vec<Vec<(u32, u64)>>, PipelineError> = if by_repo {
        let links: Vec<(u32, u32, u64)> = flip(&ratings);
        accumulate(&links, rid_map.len())
    } else {
        accumulate(&ratings, uid_map.len())
    };
    match accumulated {
        Ok(rows) => Ok(prune(rows, min_rating)),
        Err(error) => Err(error),
    }
}

/// The scores from users to repositories.
///
/// Row `u` holds, for each repository `r` that user `u` has events on, the
/// sum of the weights of the events of `u` on `r`, provided the sum is at
/// least `min_rating`; sums below it are dropped, not raised. The entries of
/// a row stand in the order in which their repositories first appear among
/// the events of the user.
///
/// Fails with the refusal of the first event whose user, repository or
/// category is unknown, and otherwise with `ScoreOverflow` where a sum
/// exceeds 64 bits.
pub fn calc_score(
    data: &[InputItem],
    uid_map: &NameIndex,
    rid_map: &NameIndex,
    min_rating: u64,
) -> (result: Result<Vec<Vec<(u32, u64)>>, PipelineError>)
    ensures
        score_result(result, data@, uid_map@, rid_map@, min_rating, false),
{
    aggregate(data, uid_map, rid_map, min_rating, false)
}

/// The scores from repositories to users.
///
/// Row `r` holds, for each user `u` that has events on repository `r`, the
/// sum of the weights of the events of `u` on `r`, provided the sum is at
/// least `min_rating`. The entries of a row stand in the order in which
/// their users first appear among the events on the repository.
///
/// Fails as `calc_score` does.
pub fn calc_score_repo(
    data: &[InputItem],
    uid_map: &NameIndex,
    rid_map: &NameIndex,
    min_rating: u64,
) -> (result: Result<Vec<Vec<(u32, u64)>>, PipelineError>)
    ensures
        score_result(result, data@, uid_map@, rid_map@, min_rating, true),
{
    aggregate(data, uid_map, rid_map, min_rating, true)
}

} // verus!
