use repo_recommender::error::PipelineError;
use repo_recommender::event::InputItem;
use repo_recommender::registry::{gen_rid_list, gen_uid_list, list_to_map};

fn event(category: &str, user: &str, repo: &str) -> InputItem {
    InputItem { event_type: category.to_string(), user: user.to_string(), repo: repo.to_string() }
}

fn names(list: &[&str]) -> Vec<String> {
    list.iter().map(|name| name.to_string()).collect()
}

#[test]
fn users_are_listed_in_order_of_first_appearance() {
    let data = vec![
        event("WatchEvent", "bob", "X"),
        event("WatchEvent", "alice", "Y"),
        event("ForkEvent", "bob", "Y"),
        event("WatchEvent", "carol", "X"),
        event("IssuesEvent", "alice", "Z"),
    ];
    assert_eq!(gen_uid_list(&data), names(&["bob", "alice", "carol"]));
}

#[test]
fn repos_are_listed_in_order_of_first_appearance() {
    let data = vec![
        event("WatchEvent", "bob", "X"),
        event("WatchEvent", "alice", "Y"),
        event("ForkEvent", "bob", "Y"),
        event("WatchEvent", "carol", "X"),
        event("IssuesEvent", "alice", "Z"),
    ];
    assert_eq!(gen_rid_list(&data), names(&["X", "Y", "Z"]));
}

#[test]
fn names_are_listed_whatever_the_category() {
    let data = vec![event("NoSuchEvent", "dave", "W")];
    assert_eq!(gen_uid_list(&data), names(&["dave"]));
    assert_eq!(gen_rid_list(&data), names(&["W"]));
}

#[test]
fn no_events_have_no_names() {
    assert!(gen_uid_list(&[]).is_empty());
    assert!(gen_rid_list(&[]).is_empty());
}

#[test]
fn user_and_repo_of_one_name_are_listed_apart() {
    let data = vec![event("WatchEvent", "same", "same"), event("WatchEvent", "other", "same")];
    assert_eq!(gen_uid_list(&data), names(&["same", "other"]));
    assert_eq!(gen_rid_list(&data), names(&["same"]));
}

#[test]
fn index_maps_each_name_to_its_position() {
    let list = names(&["bob", "alice", "carol"]);
    let index = list_to_map(&list).ok().unwrap();
    assert_eq!(index.len(), 3);
    assert_eq!(index.get("bob"), Some(0));
    assert_eq!(index.get("alice"), Some(1));
    assert_eq!(index.get("carol"), Some(2));
    assert_eq!(index.get("dave"), None);
    assert_eq!(index.get(""), None);
    assert_eq!(index.get("Bob"), None);
}

#[test]
fn index_gives_the_name_of_each_position() {
    let list = names(&["bob", "alice"]);
    let index = list_to_map(&list).ok().unwrap();
    assert_eq!(index.name(0), Some(&"bob".to_string()));
    assert_eq!(index.name(1), Some(&"alice".to_string()));
    assert_eq!(index.name(2), None);
    assert_eq!(index.name(u32::MAX), None);
}

#[test]
fn index_of_no_names_is_empty() {
    let index = list_to_map(&[]).ok().unwrap();
    assert_eq!(index.len(), 0);
    assert_eq!(index.get("bob"), None);
    assert_eq!(index.name(0), None);
}

#[test]
fn index_refuses_a_name_that_occurs_twice() {
    let list = names(&["bob", "alice", "bob"]);
    assert_eq!(list_to_map(&list).err(), Some(PipelineError::DuplicateName));
}

#[test]
fn index_finds_every_one_of_many_names() {
    let list: Vec<String> = (0..5000u32).map(|n| format!("user-{}", n * 7919 % 5000)).collect();
    let index = list_to_map(&list).ok().unwrap();
    assert_eq!(index.len(), 5000);
    for (position, name) in list.iter().enumerate() {
        assert_eq!(index.get(name), Some(position as u32));
        assert_eq!(index.name(position as u32), Some(name));
    }
    assert_eq!(index.get("user-5000"), None);
}

#[test]
fn many_events_of_few_users_list_each_user_once() {
    let data: Vec<InputItem> = (0..3000u32)
        .map(|n| event("WatchEvent", &format!("u{}", n % 17), &format!("r{}", n % 29)))
        .collect();
    let users = gen_uid_list(&data);
    let repos = gen_rid_list(&data);
    assert_eq!(users, (0..17u32).map(|n| format!("u{}", n)).collect::<Vec<String>>());
    assert_eq!(repos, (0..29u32).map(|n| format!("r{}", n)).collect::<Vec<String>>());
}
