use repo_recommender::aggregate::{accumulate, calc_score, calc_score_repo, flip, prune, resolve};
use repo_recommender::error::PipelineError;
use repo_recommender::event::InputItem;
use repo_recommender::registry::{list_to_map, NameIndex};

type Matrix = Vec<Vec<(u32, u64)>>;

fn event(category: &str, user: &str, repo: &str) -> InputItem {
    InputItem { event_type: category.to_string(), user: user.to_string(), repo: repo.to_string() }
}

fn index(list: &[&str]) -> NameIndex {
    let names: Vec<String> = list.iter().map(|name| name.to_string()).collect();
    list_to_map(&names).ok().unwrap()
}

fn sample() -> Vec<InputItem> {
    vec![
        event("WatchEvent", "alice", "X"),
        event("WatchEvent", "alice", "Y"),
        event("WatchEvent", "bob", "Y"),
        event("ForkEvent", "bob", "Z"),
        event("ForkEvent", "bob", "Z"),
        event("IssuesEvent", "carol", "X"),
    ]
}

#[test]
fn events_resolve_to_indices_and_weights() {
    let users = index(&["alice", "bob", "carol"]);
    let repos = index(&["X", "Y", "Z"]);
    assert_eq!(
        resolve(&sample(), &users, &repos),
        Ok(vec![(0, 0, 10), (0, 1, 10), (1, 1, 10), (1, 2, 6), (1, 2, 6), (2, 0, 1)])
    );
}

#[test]
fn no_events_resolve_to_no_links() {
    let users = index(&[]);
    let repos = index(&[]);
    assert_eq!(resolve(&[], &users, &repos), Ok(vec![]));
}

#[test]
fn an_unknown_user_is_refused() {
    let users = index(&["alice"]);
    let repos = index(&["X"]);
    let data = vec![event("WatchEvent", "alice", "X"), event("WatchEvent", "bob", "X")];
    assert_eq!(resolve(&data, &users, &repos), Err(PipelineError::UnknownUser));
    assert_eq!(calc_score(&data, &users, &repos, 10), Err(PipelineError::UnknownUser));
    assert_eq!(calc_score_repo(&data, &users, &repos, 10), Err(PipelineError::UnknownUser));
}

#[test]
fn an_unknown_repo_is_refused() {
    let users = index(&["alice"]);
    let repos = index(&["X"]);
    let data = vec![event("WatchEvent", "alice", "Y")];
    assert_eq!(resolve(&data, &users, &repos), Err(PipelineError::UnknownRepo));
    assert_eq!(calc_score(&data, &users, &repos, 10), Err(PipelineError::UnknownRepo));
    assert_eq!(calc_score_repo(&data, &users, &repos, 10), Err(PipelineError::UnknownRepo));
}

#[test]
fn an_unknown_category_is_refused() {
    let users = index(&["alice"]);
    let repos = index(&["X"]);
    let data = vec![event("PushEvent", "alice", "X")];
    assert_eq!(resolve(&data, &users, &repos), Err(PipelineError::UnknownCategory));
    assert_eq!(calc_score(&data, &users, &repos, 10), Err(PipelineError::UnknownCategory));
    assert_eq!(calc_score_repo(&data, &users, &repos, 10), Err(PipelineError::UnknownCategory));
}

#[test]
fn the_user_is_looked_up_before_the_repo_and_the_category() {
    let users = index(&["alice"]);
    let repos = index(&["X"]);
    assert_eq!(
        resolve(&[event("PushEvent", "bob", "Y")], &users, &repos),
        Err(PipelineError::UnknownUser)
    );
    assert_eq!(
        resolve(&[event("PushEvent", "alice", "Y")], &users, &repos),
        Err(PipelineError::UnknownRepo)
    );
}

#[test]
fn the_first_event_that_fails_decides() {
    let users = index(&["alice"]);
    let repos = index(&["X"]);
    let data = vec![
        event("WatchEvent", "alice", "X"),
        event("PushEvent", "alice", "X"),
        event("WatchEvent", "bob", "X"),
    ];
    assert_eq!(calc_score(&data, &users, &repos, 10), Err(PipelineError::UnknownCategory));
    let data = vec![
        event("WatchEvent", "alice", "Y"),
        event("PushEvent", "alice", "X"),
        event("WatchEvent", "bob", "X"),
    ];
    assert_eq!(calc_score(&data, &users, &repos, 10), Err(PipelineError::UnknownRepo));
}

#[test]
fn flip_exchanges_source_and_target() {
    assert_eq!(flip(&vec![(0, 1, 10), (2, 3, 6)]), vec![(1, 0, 10), (3, 2, 6)]);
    assert_eq!(flip(&Vec::new()), Vec::<(u32, u32, u64)>::new());
}

#[test]
fn weights_add_up_per_cell() {
    let links = vec![(0, 0, 10), (0, 1, 10), (1, 1, 10), (1, 2, 6), (1, 2, 6), (2, 0, 1)];
    assert_eq!(
        accumulate(&links, 3),
        Ok(vec![vec![(0, 10), (1, 10)], vec![(1, 10), (2, 12)], vec![(0, 1)]])
    );
}

#[test]
fn cells_stand_in_order_of_first_appearance() {
    let links = vec![(0, 7, 1), (0, 3, 2), (0, 7, 4), (0, 5, 8), (0, 3, 16)];
    assert_eq!(accumulate(&links, 1), Ok(vec![vec![(7, 5), (3, 18), (5, 8)]]));
}

#[test]
fn sources_without_links_have_empty_rows() {
    let links = vec![(2, 0, 1)];
    assert_eq!(accumulate(&links, 4), Ok(vec![vec![], vec![], vec![(0, 1)], vec![]]));
    assert_eq!(accumulate(&Vec::new(), 2), Ok(vec![vec![], vec![]]));
    assert_eq!(accumulate(&Vec::new(), 0), Ok(vec![]));
}

#[test]
fn a_link_of_weight_zero_makes_a_cell() {
    assert_eq!(accumulate(&vec![(0, 4, 0)], 1), Ok(vec![vec![(4, 0)]]));
}

#[test]
fn accumulate_refuses_a_source_without_a_row() {
    assert_eq!(accumulate(&vec![(0, 0, 1), (2, 0, 1)], 2), Err(PipelineError::IndexOutOfRange));
    assert_eq!(accumulate(&vec![(0, 0, 1)], 0), Err(PipelineError::IndexOutOfRange));
}

#[test]
fn accumulate_refuses_a_total_that_does_not_fit() {
    let links = vec![(0, 0, u64::MAX), (0, 1, 5), (0, 0, 1)];
    assert_eq!(accumulate(&links, 1), Err(PipelineError::ScoreOverflow));
    let links = vec![(0, 0, u64::MAX - 1), (0, 1, 5), (0, 0, 1)];
    assert_eq!(accumulate(&links, 1), Ok(vec![vec![(0, u64::MAX), (1, 5)]]));
}

#[test]
fn accumulate_reports_a_missing_row_before_an_overflow() {
    let links = vec![(0, 0, u64::MAX), (0, 0, 1), (3, 0, 1)];
    assert_eq!(accumulate(&links, 1), Err(PipelineError::IndexOutOfRange));
}

#[test]
fn prune_drops_what_is_below_the_minimum() {
    let rows: Matrix = vec![vec![(0, 10), (1, 9), (2, 11)], vec![(1, 1)], vec![]];
    assert_eq!(prune(rows, 10), vec![vec![(0, 10), (2, 11)], vec![], vec![]]);
}

#[test]
fn prune_with_minimum_zero_keeps_everything() {
    let rows: Matrix = vec![vec![(0, 10), (1, 0), (2, 11)], vec![(1, 1)], vec![]];
    assert_eq!(prune(rows.clone(), 0), rows);
}

#[test]
fn raising_the_minimum_only_removes_entries() {
    let rows: Matrix = vec![vec![(4, 10), (1, 9), (2, 30), (9, 16), (3, 17)], vec![(1, 16)]];
    let low = prune(rows.clone(), 10);
    let high = prune(rows.clone(), 17);
    assert_eq!(low, vec![vec![(4, 10), (2, 30), (9, 16), (3, 17)], vec![(1, 16)]]);
    assert_eq!(high, vec![vec![(2, 30), (3, 17)], vec![]]);
    assert_eq!(prune(low.clone(), 17), high);
    for (low_row, high_row) in low.iter().zip(high.iter()) {
        let kept: Vec<(u32, u64)> =
            low_row.iter().copied().filter(|entry| high_row.contains(entry)).collect();
        assert_eq!(&kept, high_row);
    }
}

#[test]
fn user_scores_of_the_sample() {
    let users = index(&["alice", "bob", "carol"]);
    let repos = index(&["X", "Y", "Z"]);
    assert_eq!(
        calc_score(&sample(), &users, &repos, 10),
        Ok(vec![vec![(0, 10), (1, 10)], vec![(1, 10), (2, 12)], vec![]])
    );
}

#[test]
fn repo_scores_of_the_sample() {
    let users = index(&["alice", "bob", "carol"]);
    let repos = index(&["X", "Y", "Z"]);
    assert_eq!(
        calc_score_repo(&sample(), &users, &repos, 10),
        Ok(vec![vec![(0, 10)], vec![(0, 10), (1, 10)], vec![(1, 12)]])
    );
}

#[test]
fn the_two_directions_mirror_each_other_before_pruning() {
    let users = index(&["alice", "bob", "carol"]);
    let repos = index(&["X", "Y", "Z"]);
    let by_user = calc_score(&sample(), &users, &repos, 0).unwrap();
    let by_repo = calc_score_repo(&sample(), &users, &repos, 0).unwrap();
    assert_eq!(by_user, vec![vec![(0, 10), (1, 10)], vec![(1, 10), (2, 12)], vec![(0, 1)]]);
    assert_eq!(by_repo, vec![vec![(0, 10), (2, 1)], vec![(0, 10), (1, 10)], vec![(1, 12)]]);
    let mut cells = 0;
    for (u, row) in by_user.iter().enumerate() {
        for &(r, score) in row {
            assert!(by_repo[r as usize].contains(&(u as u32, score)));
            cells += 1;
        }
    }
    assert_eq!(cells, by_repo.iter().map(|row| row.len()).sum::<usize>());
}

#[test]
fn the_same_pair_twice_scores_twenty() {
    let users = index(&["alice"]);
    let repos = index(&["X"]);
    let data = vec![event("WatchEvent", "alice", "X"), event("WatchEvent", "alice", "X")];
    assert_eq!(calc_score(&data, &users, &repos, 10), Ok(vec![vec![(0, 20)]]));
    assert_eq!(calc_score_repo(&data, &users, &repos, 10), Ok(vec![vec![(0, 20)]]));
}

#[test]
fn a_score_below_the_minimum_leaves_an_empty_row() {
    let users = index(&["alice"]);
    let repos = index(&["X"]);
    let data = vec![event("IssuesEvent", "alice", "X")];
    assert_eq!(calc_score(&data, &users, &repos, 10), Ok(vec![vec![]]));
    assert_eq!(calc_score_repo(&data, &users, &repos, 10), Ok(vec![vec![]]));
    assert_eq!(calc_score(&data, &users, &repos, 1), Ok(vec![vec![(0, 1)]]));
}

#[test]
fn every_category_adds_its_weight() {
    let users = index(&["alice"]);
    let repos = index(&["X"]);
    let data = vec![
        event("WatchEvent", "alice", "X"),
        event("ForkEvent", "alice", "X"),
        event("IssuesEvent", "alice", "X"),
        event("PullRequestEvent", "alice", "X"),
    ];
    assert_eq!(calc_score(&data, &users, &repos, 10), Ok(vec![vec![(0, 19)]]));
    assert_eq!(calc_score(&data, &users, &repos, 19), Ok(vec![vec![(0, 19)]]));
    assert_eq!(calc_score(&data, &users, &repos, 20), Ok(vec![vec![]]));
}

#[test]
fn names_without_events_have_empty_rows() {
    let users = index(&["alice", "bob"]);
    let repos = index(&["X", "Y", "Z"]);
    let data = vec![event("WatchEvent", "bob", "Z")];
    assert_eq!(calc_score(&data, &users, &repos, 10), Ok(vec![vec![], vec![(2, 10)]]));
    assert_eq!(calc_score_repo(&data, &users, &repos, 10), Ok(vec![vec![], vec![], vec![(1, 10)]]));
}

#[test]
fn no_events_score_nothing() {
    let users = index(&[]);
    let repos = index(&[]);
    assert_eq!(calc_score(&[], &users, &repos, 10), Ok(vec![]));
    assert_eq!(calc_score_repo(&[], &users, &repos, 10), Ok(vec![]));
}
