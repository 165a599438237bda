//! The whole computation, from the events to the ranked recommendations.
//!
//! The registry is built from the events, the events are aggregated in both
//! directions, repository-to-repository affinity is the product of the two
//! aggregated matrices, and the recommendations are the product of the
//! user-to-repository scores with that affinity. Affinity is joined through
//! the separately aggregated and separately pruned repository-to-user
//! matrix, not through the transpose of the user-to-repository matrix.

use vstd::prelude::*;
use crate::aggregate::{
    all_resolve,
    calc_score,
    calc_score_repo,
    flipped,
    keeps,
    lemma_flip_overflow,
    lemma_touched_is_linked,
    links_of,
    pruned,
    ratings_of,
    raw_row,
    raw_rows,
    resolve_event,
    totals_overflow,
};
use crate::error::PipelineError;
use crate::event::{category_weight, InputItem};
use crate::matrix::{row_within, rows_view, targets_within};
use crate::propagate::{
    calc_final,
    calc_repo_repo,
    law_product_unique,
    law_product_within,
    product_of,
    product_overflows,
};
use crate::registry::{
    first_occurrences,
    gen_rid_list,
    gen_uid_list,
    lemma_first_occurrences,
    list_to_map,
    names_view,
    repos_of,
    users_of,
    NameIndex,
};

verus! {

/// The minimum rating that is used where none is chosen.
pub const MIN_USER_RATING: u64 = 10;

/// The number of entries per row that is used where none is chosen.
pub const MAX_REL_REPO: usize = 100;

/// What the pipeline can be tuned with.
#[derive(Debug, Clone, Copy)]
pub struct Config {
    /// The least accumulated score with which an aggregated entry is kept.
    pub min_user_rating: u64,
    /// The most entries that a row keeps after each product.
    pub max_rel_repo: usize,
}

impl Default for Config {
    fn default() -> (config: Config)
        ensures
            config.min_user_rating == MIN_USER_RATING,
            config.max_rel_repo == MAX_REL_REPO,
    {
        Config { min_user_rating: MIN_USER_RATING, max_rel_repo: MAX_REL_REPO }
    }
}

/// The result of the pipeline: the ranked recommendations of each user, and
/// the names that the indices stand for.
#[derive(Debug)]
pub struct Recommendations {
    /// The user of each row.
    pub users: Vec<String>,
    /// The repository of each target index.
    pub repos: Vec<String>,
    /// One row per user: repositories with their final scores, strongest first.
    pub scores: Vec<Vec<(u32, u64)>>,
}

/// The users of the events, each at its index.
pub open spec fn user_names(events: Seq<InputItem>) -> Seq<Seq<char>> {
    first_occurrences(users_of(events))
}

/// The repositories of the events, each at its index.
pub open spec fn repo_names(events: Seq<InputItem>) -> Seq<Seq<char>> {
    first_occurrences(repos_of(events))
}

/// The aggregated scores of the events in one direction.
pub open spec fn scores_of(events: Seq<InputItem>, min_rating: u64, by_repo: bool) -> Seq<
    Seq<(u32, u64)>,
> {
    let users = user_names(events);
    let repos = repo_names(events);
    let sources = if by_repo {
        repos.len()
    } else {
        users.len()
    };
    pruned(raw_rows(links_of(events, users, repos, by_repo), sources), min_rating)
}

/// Repository-to-repository affinity of the events.
pub open spec fn affinity_of(events: Seq<InputItem>, min_rating: u64, k: nat) -> Seq<
    Seq<(u32, u64)>,
> {
    product_of(scores_of(events, min_rating, true), scores_of(events, min_rating, false), k)
}

/// The final scores of the events.
pub open spec fn final_scores(events: Seq<InputItem>, min_rating: u64, k: nat) -> Seq<
    Seq<(u32, u64)>,
> {
    product_of(scores_of(events, min_rating, false), affinity_of(events, min_rating, k), k)
}

/// Some event has a category outside the table of weights.
pub open spec fn has_unknown_category(events: Seq<InputItem>) -> bool {
    exists|n: int| 0 <= n < events.len() && category_weight((#[trigger] events[n]).event_type@) is None
}

/// Some score of some stage exceeds 64 bits.
pub open spec fn scores_overflow(events: Seq<InputItem>, min_rating: u64, k: nat) -> bool {
    let user_repo = scores_of(events, min_rating, false);
    let repo_user = scores_of(events, min_rating, true);
    ||| totals_overflow(ratings_of(events, user_names(events), repo_names(events)))
    ||| product_overflows(repo_user, user_repo)
    ||| product_overflows(user_repo, affinity_of(events, min_rating, k))
}

/// Why the pipeline gives no result for the events, if it gives none: too
/// many names come before an unknown category, and that before a score that
/// does not fit.
pub open spec fn failure(events: Seq<InputItem>, min_rating: u64, k: nat) -> Option<
    PipelineError,
> {
    if user_names(events).len() > u32::MAX || repo_names(events).len() > u32::MAX {
        Some(PipelineError::TooManyNames)
    } else if has_unknown_category(events) {
        Some(PipelineError::UnknownCategory)
    } else if scores_overflow(events, min_rating, k) {
        Some(PipelineError::ScoreOverflow)
    } else {
        None
    }
}

/// Against the registry of their own names, events are refused for their
/// category only.
proof fn lemma_own_names_resolve(events: Seq<InputItem>, n: int)
    requires
        0 <= n < events.len(),
    ensures
        user_names(events).contains(events[n].user@),
        repo_names(events).contains(events[n].repo@),
        resolve_event(events[n], user_names(events), repo_names(events)) is Ok
            <==> category_weight(events[n].event_type@) is Some,
        resolve_event(events[n], user_names(events), repo_names(events)) is Err
            ==> resolve_event(events[n], user_names(events), repo_names(events)) == Err::<
            (u32, u32, u64),
            PipelineError,
        >(PipelineError::UnknownCategory),
{
    lemma_first_occurrences(users_of(events));
    lemma_first_occurrences(repos_of(events));
    assert(users_of(events)[n] == events[n].user@);
    assert(repos_of(events)[n] == events[n].repo@);
    assert(users_of(events).contains(events[n].user@));
    assert(repos_of(events).contains(events[n].repo@));
}

/// The links of events that resolve point at names of the registry.
proof fn lemma_ratings_within(
    events: Seq<InputItem>,
    users: Seq<Seq<char>>,
    repos: Seq<Seq<char>>,
    n: int,
)
    requires
        all_resolve(events, users, repos),
        users.len() <= u32::MAX,
        repos.len() <= u32::MAX,
        0 <= n < events.len(),
    ensures
        ratings_of(events, users, repos)[n].0 < users.len(),
        ratings_of(events, users, repos)[n].1 < repos.len(),
{
    assert(resolve_event(events[n], users, repos) is Ok);
    assert(users.contains(events[n].user@));
    assert(repos.contains(events[n].repo@));
}

/// Aggregated rows point at targets that the links point at.
proof fn lemma_scores_within(
    links: Seq<(u32, u32, u64)>,
    sources: nat,
    min_rating: u64,
    bound: int,
)
    requires
        forall|n: int| 0 <= n < links.len() ==> (#[trigger] links[n]).1 < bound,
    ensures
        targets_within(pruned(raw_rows(links, sources), min_rating), bound),
{
    let rows = pruned(raw_rows(links, sources), min_rating);
    assert forall|s: int| 0 <= s < rows.len() implies row_within(#[trigger] rows[s], bound) by {
        let raw = raw_row(links, s);
        assert(rows[s] == raw.filter(keeps(min_rating)));
        assert forall|i: int| 0 <= i < rows[s].len() implies (#[trigger] rows[s][i]).0 < bound by {
            assert(raw.filter(keeps(min_rating)).contains(rows[s][i]));
            raw.lemma_filter_contains_rev(keeps(min_rating), rows[s][i]);
            let p = choose|p: int| 0 <= p < raw.len() && raw[p] == rows[s][i];
            lemma_touched_is_linked(links, s, p);
        }
    }
}

/// The recommendations for the users of the events.
///
/// The users and the repositories get their indices in order of first
/// appearance. Row `u` of the result belongs to user `u` and holds the
/// `max_rel_repo` repositories with the highest final scores, highest first.
/// Every user has a row and every entry names a repository of the result, so
/// the result can be labelled. Without events there are no users, and the
/// result has no rows.
///
/// Fails with `TooManyNames` where there are more than `u32::MAX` users or
/// repositories, otherwise with `UnknownCategory` where an event has a
/// category outside the table of weights, and otherwise with `ScoreOverflow`
/// where a score of some stage exceeds 64 bits.
pub fn recommend(data: &[InputItem], config: &Config) -> (result: Result<
    Recommendations,
    PipelineError,
>)
    ensures
        match result {
            Ok(out) => {
                &&& failure(data@, config.min_user_rating, config.max_rel_repo as nat) is None
                &&& names_view(out.users@) == user_names(data@)
                &&& names_view(out.repos@) == repo_names(data@)
                &&& rows_view(out.scores@) == final_scores(
                    data@,
                    config.min_user_rating,
                    config.max_rel_repo as nat,
                )
                &&& out.scores.len() == out.users.len()
                &&& targets_within(rows_view(out.scores@), out.repos.len() as int)
            },
            Err(error) => failure(data@, config.min_user_rating, config.max_rel_repo as nat)
                == Some(error),
        },
        data.len() == 0 ==> result is Ok && result->Ok_0.scores.len() == 0,
{
    let ghost events = data@;
    let ghost unames = user_names(events);
    let ghost rnames = repo_names(events);
    let min_rating: u64 = config.min_user_rating;
    let max_rel: usize = config.max_rel_repo;
    let users: Vec<String> = gen_uid_list(data);
    let repos: Vec<String> = gen_rid_list(data);
    proof {
        lemma_first_occurrences(users_of(events));
        lemma_first_occurrences(repos_of(events));
    }
    let uid_map: NameIndex = match list_to_map(users.as_slice()) {
        Ok(index) => index,
        Err(error) => {
            return Err(error);
        },
    };
    let rid_map: NameIndex = match list_to_map(repos.as_slice()) {
        Ok(index) => index,
        Err(error) => {
            return Err(error);
        },
    };
    let ghost ratings = ratings_of(events, unames, rnames);
    proof {
        assert forall|n: int| 0 <= n < events.len() implies (resolve_event(
            #[trigger] events[n],
            unames,
            rnames,
        ) is Ok <==> category_weight(events[n].event_type@) is Some) && (resolve_event(
            events[n],
            unames,
            rnames,
        ) is Err ==> resolve_event(events[n], unames, rnames) == Err::<
            (u32, u32, u64),
            PipelineError,
        >(PipelineError::UnknownCategory)) by {
            lemma_own_names_resolve(events, n);
        }
    }
    let user_repo: Vec<Vec<(u32, u64)>> = match calc_score(data, &uid_map, &rid_map, min_rating) {
        Ok(scores) => scores,
        Err(error) => {
            proof {
                if error != PipelineError::ScoreOverflow {
                    let n = choose|n: int|
                        0 <= n < events.len() && resolve_event(
                            #[trigger] events[n],
                            unames,
                            rnames,
                        ) == Err::<(u32, u32, u64), PipelineError>(error);
                    assert(category_weight(events[n].event_type@) is None);
                }
            }
            return Err(error);
        },
    };
    proof {
        assert(!has_unknown_category(events)) by {
            if has_unknown_category(events) {
                let n = choose|n: int|
                    0 <= n < events.len() && category_weight(
                        (#[trigger] events[n]).event_type@,
                    ) is None;
                assert(resolve_event(events[n], unames, rnames) is Ok);
            }
        }
        lemma_flip_overflow(ratings);
    }
    let repo_user: Vec<Vec<(u32, u64)>> = match calc_score_repo(
        data,
        &uid_map,
        &rid_map,
        min_rating,
    ) {
        Ok(scores) => scores,
        Err(error) => {
            proof {
                if error != PipelineError::ScoreOverflow {
                    let n = choose|n: int|
                        0 <= n < events.len() && resolve_event(
                            #[trigger] events[n],
                            unames,
                            rnames,
                        ) == Err::<(u32, u32, u64), PipelineError>(error);
                    assert(resolve_event(events[n], unames, rnames) is Ok);
                }
            }
            return Err(error);
        },
    };
    let ghost ur = scores_of(events, min_rating, false);
    let ghost ru = scores_of(events, min_rating, true);
    proof {
        assert(rows_view(user_repo@) == ur);
        assert(rows_view(repo_user@) == ru);
        assert forall|n: int| 0 <= n < ratings.len() implies (#[trigger] ratings[n]).1
            < rnames.len() by {
            lemma_ratings_within(events, unames, rnames, n);
        }
        assert forall|n: int| 0 <= n < flipped(ratings).len() implies (#[trigger] flipped(
            ratings,
        )[n]).1 < unames.len() by {
            lemma_ratings_within(events, unames, rnames, n);
        }
        lemma_scores_within(ratings, unames.len(), min_rating, rnames.len() as int);
        lemma_scores_within(flipped(ratings), rnames.len(), min_rating, unames.len() as int);
    }
    let repo_repo: Vec<Vec<(u32, u64)>> = match calc_repo_repo(&user_repo, &repo_user, max_rel) {
        Ok(affinity) => affinity,
        Err(error) => {
            return Err(error);
        },
    };
    proof {
        law_product_unique(rows_view(repo_repo@), ru, ur, max_rel as nat);
        law_product_within(rows_view(repo_repo@), ru, ur, max_rel as nat, rnames.len() as int);
    }
    let scores: Vec<Vec<(u32, u64)>> = match calc_final(&user_repo, &repo_repo, max_rel) {
        Ok(scores) => scores,
        Err(error) => {
            return Err(error);
        },
    };
    proof {
        law_product_unique(
            rows_view(scores@),
            ur,
            affinity_of(events, min_rating, max_rel as nat),
            max_rel as nat,
        );
        law_product_within(
            rows_view(scores@),
            ur,
            rows_view(repo_repo@),
            max_rel as nat,
            rnames.len() as int,
        );
        assert(names_view(users@).len() == users@.len());
        assert(names_view(repos@).len() == repos@.len());
    }
    Ok(Recommendations { users, repos, scores })
}

/// What `label_scores` returns where every index has a name: row `u` is the
/// name of user `u` with the entries of row `u`, each target replaced by the
/// name of its repository.
pub open spec fn labelled(
    out: Seq<(String, Vec<(String, u64)>)>,
    scores: Seq<Seq<(u32, u64)>>,
    users: Seq<Seq<char>>,
    repos: Seq<Seq<char>>,
) -> bool {
    &&& out.len() == scores.len()
    &&& forall|u: int|
        0 <= u < out.len() ==> {
            &&& (#[trigger] out[u]).0@ == users[u]
            &&& out[u].1@.len() == scores[u].len()
            &&& forall|i: int|
                0 <= i < scores[u].len() ==> {
                    &&& (#[trigger] out[u].1@[i]).0@ == repos[scores[u][i].0 as int]
                    &&& out[u].1@[i].1 == scores[u][i].1
                }
        }
}

/// The rows of a matrix from users to repositories with names in place of
/// indices, in the order of the matrix: what a sink writes, one line per row.
///
/// Fails with `IndexOutOfRange` where the matrix has more rows than there are
/// user names, or an entry has a target without a repository name.
pub fn label_scores(scores: &Vec<Vec<(u32, u64)>>, uid_list: &[String], rid_list: &[String]) -> (result:
    Result<Vec<(String, Vec<(String, u64)>)>, PipelineError>)
    ensures
        match result {
            Ok(out) => {
                &&& scores.len() <= uid_list.len()
                &&& targets_within(rows_view(scores@), rid_list.len() as int)
                &&& labelled(out@, rows_view(scores@), names_view(uid_list@), names_view(rid_list@))
            },
            Err(error) => {
                &&& error == PipelineError::IndexOutOfRange
                &&& (scores.len() > uid_list.len() || !targets_within(
                    rows_view(scores@),
                    rid_list.len() as int,
                ))
            },
        },
{
    if scores.len() > uid_list.len() {
        return Err(PipelineError::IndexOutOfRange);
    }
    let ghost rows = rows_view(scores@);
    let ghost users = names_view(uid_list@);
    let ghost repos = names_view(rid_list@);
    let mut out: Vec<(String, Vec<(String, u64)>)> = Vec::new();
    let mut u: usize = 0;
    while u < scores.len()
        invariant
            u <= scores.len(),
            scores.len() <= uid_list.len(),
            rows == rows_view(scores@),
            users == names_view(uid_list@),
            repos == names_view(rid_list@),
            out.len() == u,
            forall|a: int| 0 <= a < u ==> row_within(#[trigger] rows[a], rid_list.len() as int),
            forall|a: int|
                0 <= a < u ==> {
                    &&& (#[trigger] out@[a]).0@ == users[a]
                    &&& out@[a].1@.len() == rows[a].len()
                    &&& forall|i: int|
                        0 <= i < rows[a].len() ==> {
                            &&& (#[trigger] out@[a].1@[i]).0@ == repos[rows[a][i].0 as int]
                            &&& out@[a].1@[i].1 == rows[a][i].1
                        }
                },
        decreases scores.len() - u,
    {
        let row: &Vec<(u32, u64)> = &scores[u];
        let mut named: Vec<(String, u64)> = Vec::new();
        let mut i: usize = 0;
        proof {
            assert(rows[u as int] == row@);
        }
        while i < row.len()
            invariant
                i <= row.len(),
                u < scores.len(),
                rows == rows_view(scores@),
                repos == names_view(rid_list@),
                rows[u as int] == row@,
                named.len() == i,
                forall|b: int| 0 <= b < i ==> (#[trigger] row@[b]).0 < rid_list.len(),
                forall|b: int|
                    0 <= b < i ==> {
                        &&& (#[trigger] named@[b]).0@ == repos[row@[b].0 as int]
                        &&& named@[b].1 == row@[b].1
                    },
            decreases row.len() - i,
        {
            let target: usize = row[i].0 as usize;
            if target >= rid_list.len() {
                proof {
                    assert(!row_within(rows[u as int], rid_list.len() as int));
                }
                return Err(PipelineError::IndexOutOfRange);
            }
            named.push((rid_list[target].clone(), row[i].1));
            i = i + 1;
        }
        out.push((uid_list[u].clone(), named));
        u = u + 1;
    }
    Ok(out)
}

} // verus!
