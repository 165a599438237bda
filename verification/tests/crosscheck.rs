use std::collections::HashMap;

use repo_recommender::aggregate::{calc_score, calc_score_repo};
use repo_recommender::event::InputItem;
use repo_recommender::pipeline::{recommend, Config};
use repo_recommender::propagate::{calc_final, calc_repo_repo};
use repo_recommender::registry::{gen_rid_list, gen_uid_list, list_to_map};

type Matrix = Vec<Vec<(u32, u64)>>;

/// A small generator of numbers that looks random and is the same on every run.
struct Numbers(u64);

impl Numbers {
    fn next(&mut self, below: u64) -> u64 {
        self.0 = self.0.wrapping_mul(6364136223846793005).wrapping_add(1442695040888963407);
        (self.0 >> 33) % below
    }
}

fn events(count: usize, users: u64, repos: u64, seed: u64) -> Vec<InputItem> {
    let categories = ["WatchEvent", "ForkEvent", "IssuesEvent", "PullRequestEvent"];
    let mut numbers = Numbers(seed);
    (0..count)
        .map(|_| {
            let user = numbers.next(users);
            let skew = numbers.next(repos);
            let repo = (skew * skew) / repos;
            InputItem {
                event_type: categories[numbers.next(4) as usize].to_string(),
                user: format!("user{}", user),
                repo: format!("owner{}/repo{}", repo % 7, repo),
            }
        })
        .collect()
}

fn weight(category: &str) -> u64 {
    match category {
        "WatchEvent" => 10,
        "ForkEvent" => 6,
        "IssuesEvent" => 1,
        "PullRequestEvent" => 2,
        other => panic!("no weight for {}", other),
    }
}

fn first_appearances(names: Vec<&String>) -> Vec<String> {
    let mut seen = HashMap::new();
    let mut list = Vec::new();
    for name in names {
        if seen.insert(name.clone(), ()).is_none() {
            list.push(name.clone());
        }
    }
    list
}

fn positions(list: &[String]) -> HashMap<String, u32> {
    list.iter().enumerate().map(|(position, name)| (name.clone(), position as u32)).collect()
}

/// The sums of the weights per cell, one map per source.
fn sums(data: &[InputItem], users: &[String], repos: &[String], by_repo: bool) -> Vec<HashMap<u32, u64>> {
    let uid = positions(users);
    let rid = positions(repos);
    let mut rows = vec![HashMap::new(); if by_repo { repos.len() } else { users.len() }];
    for event in data {
        let (u, r) = (uid[&event.user], rid[&event.repo]);
        let (source, target) = if by_repo { (r, u) } else { (u, r) };
        *rows[source as usize].entry(target).or_insert(0u64) += weight(&event.event_type);
    }
    rows
}

fn ranked(row: HashMap<u32, u64>, k: usize) -> Vec<(u32, u64)> {
    let mut entries: Vec<(u32, u64)> = row.into_iter().collect();
    entries.sort_by(|a, b| b.1.cmp(&a.1).then(a.0.cmp(&b.0)));
    entries.truncate(k);
    entries
}

fn product(from: &Matrix, via: &Matrix, k: usize) -> Matrix {
    from.iter()
        .map(|row| {
            let mut reached = HashMap::new();
            for &(mid, s1) in row {
                for &(target, s2) in &via[mid as usize] {
                    *reached.entry(target).or_insert(0u64) += s1 * s2;
                }
            }
            ranked(reached, k)
        })
        .collect()
}

fn as_maps(m: &Matrix) -> Vec<HashMap<u32, u64>> {
    m.iter()
        .map(|row| {
            let map: HashMap<u32, u64> = row.iter().copied().collect();
            assert_eq!(map.len(), row.len());
            map
        })
        .collect()
}

fn check(count: usize, users: u64, repos: u64, seed: u64, min_rating: u64, k: usize) {
    let data = events(count, users, repos, seed);
    let user_list = first_appearances(data.iter().map(|event| &event.user).collect());
    let repo_list = first_appearances(data.iter().map(|event| &event.repo).collect());
    assert_eq!(gen_uid_list(&data), user_list);
    assert_eq!(gen_rid_list(&data), repo_list);

    let uid_map = list_to_map(&user_list).ok().unwrap();
    let rid_map = list_to_map(&repo_list).ok().unwrap();
    let user_repo = calc_score(&data, &uid_map, &rid_map, min_rating).unwrap();
    let repo_user = calc_score_repo(&data, &uid_map, &rid_map, min_rating).unwrap();
    let mut want_user_repo = sums(&data, &user_list, &repo_list, false);
    let mut want_repo_user = sums(&data, &user_list, &repo_list, true);
    for row in want_user_repo.iter_mut().chain(want_repo_user.iter_mut()) {
        row.retain(|_, score| *score >= min_rating);
    }
    assert_eq!(as_maps(&user_repo), want_user_repo);
    assert_eq!(as_maps(&repo_user), want_repo_user);

    let affinity = calc_repo_repo(&user_repo, &repo_user, k).unwrap();
    assert_eq!(affinity, product(&repo_user, &user_repo, k));
    let scores = calc_final(&user_repo, &affinity, k).unwrap();
    assert_eq!(scores, product(&user_repo, &affinity, k));

    let config = Config { min_user_rating: min_rating, max_rel_repo: k };
    let out = recommend(&data, &config).unwrap();
    assert_eq!(out.users, user_list);
    assert_eq!(out.repos, repo_list);
    assert_eq!(out.scores, scores);
    assert!(out.scores.iter().all(|row| row.len() <= k));
}

#[test]
fn small_logs_agree_with_plain_sums_and_sorts() {
    for seed in 0..40 {
        check(60, 5, 6, seed, 10, 3);
    }
}

#[test]
fn a_long_log_agrees_with_plain_sums_and_sorts() {
    check(30_000, 300, 150, 7, 10, 20);
}

#[test]
fn a_long_log_agrees_with_the_usual_settings() {
    check(20_000, 150, 400, 11, 10, 100);
}

#[test]
fn a_log_with_low_minimum_agrees() {
    check(5_000, 80, 90, 3, 1, 10);
    check(5_000, 80, 90, 3, 0, 1);
}

#[test]
fn a_log_with_high_minimum_agrees() {
    check(5_000, 20, 30, 5, 120, 5);
}
