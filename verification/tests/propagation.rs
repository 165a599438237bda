use repo_recommender::error::PipelineError;
use repo_recommender::matrix::check_targets;
use repo_recommender::propagate::{calc_final, calc_repo_repo, propagate};

type Matrix = Vec<Vec<(u32, u64)>>;

fn scale(m: &Matrix, c: u64) -> Matrix {
    m.iter().map(|row| row.iter().map(|&(t, s)| (t, s * c)).collect()).collect()
}

#[test]
fn product_adds_up_both_paths() {
    let from: Matrix = vec![vec![(0, 2), (1, 3)]];
    let via: Matrix = vec![vec![(0, 5), (1, 1)], vec![(1, 4)]];
    assert_eq!(propagate(&from, &via, 10), Ok(vec![vec![(1, 14), (0, 10)]]));
}

#[test]
fn product_rows_are_cut_to_the_strongest() {
    let from: Matrix = vec![vec![(0, 1)]];
    let via: Matrix = vec![vec![(5, 3), (2, 9), (7, 3), (1, 4)]];
    assert_eq!(propagate(&from, &via, 2), Ok(vec![vec![(2, 9), (1, 4)]]));
    assert_eq!(propagate(&from, &via, 3), Ok(vec![vec![(2, 9), (1, 4), (5, 3)]]));
    assert_eq!(propagate(&from, &via, 0), Ok(vec![vec![]]));
}

#[test]
fn product_of_an_empty_row_is_an_empty_row() {
    let from: Matrix = vec![vec![], vec![(0, 2)], vec![]];
    let via: Matrix = vec![vec![(0, 5)]];
    assert_eq!(propagate(&from, &via, 10), Ok(vec![vec![], vec![(0, 10)], vec![]]));
}

#[test]
fn product_of_no_rows_has_no_rows() {
    let from: Matrix = vec![];
    let via: Matrix = vec![vec![(0, 5)]];
    assert_eq!(propagate(&from, &via, 10), Ok(vec![]));
}

#[test]
fn product_keeps_cells_that_add_up_to_zero() {
    let from: Matrix = vec![vec![(0, 0)]];
    let via: Matrix = vec![vec![(4, 7)]];
    assert_eq!(propagate(&from, &via, 10), Ok(vec![vec![(4, 0)]]));
}

#[test]
fn product_adds_up_repeated_targets() {
    let from: Matrix = vec![vec![(0, 1), (0, 2)]];
    let via: Matrix = vec![vec![(1, 5), (1, 1)]];
    assert_eq!(propagate(&from, &via, 10), Ok(vec![vec![(1, 18)]]));
}

#[test]
fn product_refuses_an_entry_without_a_row() {
    let from: Matrix = vec![vec![(0, 1)], vec![(1, 1)]];
    let via: Matrix = vec![vec![(0, 1)]];
    assert_eq!(propagate(&from, &via, 10), Err(PipelineError::IndexOutOfRange));
}

#[test]
fn product_accepts_targets_beyond_the_rows_of_the_second_matrix() {
    let from: Matrix = vec![vec![(0, 3)]];
    let via: Matrix = vec![vec![(4_000_000_000, 2)]];
    assert_eq!(propagate(&from, &via, 10), Ok(vec![vec![(4_000_000_000, 6)]]));
}

#[test]
fn product_refuses_a_term_that_does_not_fit() {
    let from: Matrix = vec![vec![(0, u64::MAX)]];
    let via: Matrix = vec![vec![(0, 2)]];
    assert_eq!(propagate(&from, &via, 10), Err(PipelineError::ScoreOverflow));
}

#[test]
fn product_refuses_a_sum_that_does_not_fit() {
    let from: Matrix = vec![vec![(0, 1), (1, 1)]];
    let via: Matrix = vec![vec![(0, u64::MAX)], vec![(0, 1)]];
    assert_eq!(propagate(&from, &via, 10), Err(PipelineError::ScoreOverflow));
}

#[test]
fn product_accepts_the_largest_score() {
    let from: Matrix = vec![vec![(0, 1), (1, 1)]];
    let via: Matrix = vec![vec![(0, u64::MAX - 1)], vec![(0, 1)]];
    assert_eq!(propagate(&from, &via, 10), Ok(vec![vec![(0, u64::MAX)]]));
}

#[test]
fn product_refuses_an_overflow_in_a_cell_that_would_be_cut() {
    let from: Matrix = vec![vec![(0, 1)]];
    let via: Matrix = vec![vec![(0, u64::MAX), (1, 1), (1, u64::MAX)]];
    assert_eq!(propagate(&from, &via, 0), Err(PipelineError::ScoreOverflow));
}

#[test]
fn a_missing_row_is_reported_before_an_overflow() {
    let from: Matrix = vec![vec![(0, u64::MAX)], vec![(9, 1)]];
    let via: Matrix = vec![vec![(0, 2)]];
    assert_eq!(propagate(&from, &via, 10), Err(PipelineError::IndexOutOfRange));
}

#[test]
fn check_targets_compares_with_the_number_of_rows() {
    let m: Matrix = vec![vec![(0, 1), (2, 1)], vec![], vec![(1, 7)]];
    assert!(check_targets(&m, 3));
    assert!(!check_targets(&m, 2));
    assert!(check_targets(&Vec::new(), 0));
    assert!(!check_targets(&vec![vec![(0, 1)]], 0));
}

#[test]
fn repo_affinity_of_one_shared_rating() {
    let user_repo: Matrix = vec![vec![(0, 20)]];
    let repo_user: Matrix = vec![vec![(0, 20)]];
    assert_eq!(calc_repo_repo(&user_repo, &repo_user, 100), Ok(vec![vec![(0, 400)]]));
}

#[test]
fn repo_affinity_goes_from_repos_through_users() {
    let user_repo: Matrix = vec![vec![(0, 10), (1, 10)], vec![(1, 10), (2, 12)], vec![]];
    let repo_user: Matrix = vec![vec![(0, 10)], vec![(0, 10), (1, 10)], vec![(1, 12)]];
    assert_eq!(
        calc_repo_repo(&user_repo, &repo_user, 100),
        Ok(vec![
            vec![(0, 100), (1, 100)],
            vec![(1, 200), (2, 120), (0, 100)],
            vec![(2, 144), (1, 120)],
        ])
    );
}

#[test]
fn repo_affinity_has_one_row_per_repo() {
    let user_repo: Matrix = vec![vec![(0, 10)]];
    let repo_user: Matrix = vec![vec![(0, 10)], vec![], vec![]];
    assert_eq!(calc_repo_repo(&user_repo, &repo_user, 100), Ok(vec![vec![(0, 100)], vec![], vec![]]));
}

#[test]
fn repo_affinity_refuses_a_user_without_a_row() {
    let user_repo: Matrix = vec![vec![(0, 10)]];
    let repo_user: Matrix = vec![vec![(1, 10)]];
    assert_eq!(calc_repo_repo(&user_repo, &repo_user, 100), Err(PipelineError::IndexOutOfRange));
}

#[test]
fn final_scores_of_one_shared_rating() {
    let user_repo: Matrix = vec![vec![(0, 20)]];
    let repo_repo: Matrix = vec![vec![(0, 400)]];
    assert_eq!(calc_final(&user_repo, &repo_repo, 100), Ok(vec![vec![(0, 8000)]]));
}

#[test]
fn final_scores_go_from_users_through_repo_affinity() {
    let user_repo: Matrix = vec![vec![(0, 10), (1, 10)], vec![(1, 10), (2, 12)], vec![]];
    let repo_repo: Matrix = vec![
        vec![(0, 100), (1, 100)],
        vec![(1, 200), (2, 120), (0, 100)],
        vec![(2, 144), (1, 120)],
    ];
    assert_eq!(
        calc_final(&user_repo, &repo_repo, 100),
        Ok(vec![
            vec![(1, 3000), (0, 2000), (2, 1200)],
            vec![(1, 3440), (2, 2928), (0, 1000)],
            vec![],
        ])
    );
}

#[test]
fn final_scores_are_cut_to_the_strongest() {
    let user_repo: Matrix = vec![vec![(0, 10), (1, 10)], vec![(1, 10), (2, 12)], vec![]];
    let repo_repo: Matrix =
        vec![vec![(0, 100), (1, 100)], vec![(1, 200), (2, 120)], vec![(2, 144), (1, 120)]];
    assert_eq!(
        calc_final(&user_repo, &repo_repo, 2),
        Ok(vec![vec![(1, 3000), (2, 1200)], vec![(1, 3440), (2, 2928)], vec![]])
    );
}

#[test]
fn final_scores_refuse_a_repo_without_a_row() {
    let user_repo: Matrix = vec![vec![(3, 10)]];
    let repo_repo: Matrix = vec![vec![(0, 100)]];
    assert_eq!(calc_final(&user_repo, &repo_repo, 100), Err(PipelineError::IndexOutOfRange));
}

#[test]
fn final_scores_refuse_a_score_that_does_not_fit() {
    let user_repo: Matrix = vec![vec![(0, 1 << 40)]];
    let repo_repo: Matrix = vec![vec![(0, 1 << 40)]];
    assert_eq!(calc_final(&user_repo, &repo_repo, 100), Err(PipelineError::ScoreOverflow));
}

#[test]
fn doubling_both_legs_multiplies_the_product_by_four() {
    let from: Matrix = vec![vec![(0, 2), (1, 3)], vec![(1, 7)]];
    let via: Matrix = vec![vec![(0, 5), (1, 1), (2, 6)], vec![(1, 4), (2, 1)]];
    let plain = propagate(&from, &via, 2).unwrap();
    let doubled = propagate(&scale(&from, 2), &scale(&via, 2), 2).unwrap();
    assert_eq!(plain, vec![vec![(2, 15), (1, 14)], vec![(1, 28), (2, 7)]]);
    assert_eq!(doubled, scale(&plain, 4));
}

#[test]
fn scaling_the_legs_apart_multiplies_the_product_by_both_factors() {
    let from: Matrix = vec![vec![(0, 2), (1, 3)], vec![(1, 7)]];
    let via: Matrix = vec![vec![(0, 5), (1, 1), (2, 6)], vec![(1, 4), (2, 1)]];
    let plain = propagate(&from, &via, 3).unwrap();
    let scaled = propagate(&scale(&from, 3), &scale(&via, 5), 3).unwrap();
    assert_eq!(scaled, scale(&plain, 15));
}

#[test]
fn doubling_the_ratings_multiplies_the_final_scores_by_eight() {
    let user_repo: Matrix = vec![vec![(0, 10), (1, 10)], vec![(1, 10), (2, 12)], vec![]];
    let repo_user: Matrix = vec![vec![(0, 10)], vec![(0, 10), (1, 10)], vec![(1, 12)]];
    let affinity = calc_repo_repo(&user_repo, &repo_user, 100).unwrap();
    let scores = calc_final(&user_repo, &affinity, 100).unwrap();
    let user_repo2 = scale(&user_repo, 2);
    let repo_user2 = scale(&repo_user, 2);
    let affinity2 = calc_repo_repo(&user_repo2, &repo_user2, 100).unwrap();
    let scores2 = calc_final(&user_repo2, &affinity2, 100).unwrap();
    assert_eq!(affinity2, scale(&affinity, 4));
    assert_eq!(scores2, scale(&scores, 8));
}
