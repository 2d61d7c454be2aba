use handoff::environments::{
    pick_handoff_overlap_env, sort_environments_by_recency, CloudAmbientAgentEnvironment, SyncId,
};
use handoff::github::GithubRepo;
use handoff::workspace::{TouchedRepo, TouchedWorkspace};

fn repo(name: &str) -> GithubRepo {
    GithubRepo::new("o".to_string(), name.to_string())
}

fn env(id: &str, last_used: Option<u64>, repos: &[&str]) -> CloudAmbientAgentEnvironment {
    CloudAmbientAgentEnvironment {
        id: SyncId { uid: id.to_string() },
        github_repos: repos.iter().map(|r| repo(r)).collect(),
        last_used,
    }
}

fn workspace(repos: &[Option<&str>]) -> TouchedWorkspace {
    TouchedWorkspace {
        repos: repos
            .iter()
            .enumerate()
            .map(|(i, r)| TouchedRepo { git_root: format!("/r{i}"), repo_id: r.map(repo) })
            .collect(),
        orphan_files: Vec::new(),
    }
}

fn pick(repos: &[Option<&str>], envs: Vec<CloudAmbientAgentEnvironment>) -> Option<String> {
    pick_handoff_overlap_env(&workspace(repos), envs).map(|id| id.uid)
}

#[test]
fn sorting_puts_the_most_recent_first_and_keeps_ties() {
    let mut envs = vec![
        env("never1", None, &[]),
        env("old", Some(1), &[]),
        env("tie1", Some(5), &[]),
        env("zero", Some(0), &[]),
        env("new", Some(9), &[]),
        env("tie2", Some(5), &[]),
        env("never2", None, &[]),
    ];
    sort_environments_by_recency(&mut envs);
    let ids: Vec<&str> = envs.iter().map(|e| e.id.uid.as_str()).collect();
    assert_eq!(ids, vec!["new", "tie1", "tie2", "old", "zero", "never1", "never2"]);
}

#[test]
fn sorting_nothing_and_one() {
    let mut none: Vec<CloudAmbientAgentEnvironment> = Vec::new();
    sort_environments_by_recency(&mut none);
    assert!(none.is_empty());
    let mut one = vec![env("a", None, &["x"])];
    sort_environments_by_recency(&mut one);
    assert_eq!(one.len(), 1);
    assert_eq!(one[0].id.uid, "a");
}

#[test]
fn the_most_overlap_wins() {
    let envs = vec![
        env("one", Some(9), &["a", "x"]),
        env("two", Some(1), &["b", "a"]),
        env("none", Some(10), &["y"]),
    ];
    assert_eq!(pick(&[Some("a"), Some("b"), None], envs), Some("two".to_string()));
}

#[test]
fn ties_go_to_the_most_recently_used() {
    let envs =
        vec![env("old", Some(1), &["a"]), env("new", Some(2), &["a"]), env("never", None, &["a"])];
    assert_eq!(pick(&[Some("a")], envs), Some("new".to_string()));
    let envs = vec![env("first", Some(2), &["a"]), env("second", Some(2), &["a"])];
    assert_eq!(pick(&[Some("a")], envs), Some("first".to_string()));
}

#[test]
fn a_repo_touched_twice_counts_twice() {
    let envs = vec![env("b_and_c", Some(9), &["b"]), env("a", Some(1), &["a", "a"])];
    assert_eq!(pick(&[Some("a"), Some("b"), Some("a")], envs), Some("a".to_string()));
}

#[test]
fn no_overlap_picks_nothing() {
    assert_eq!(pick(&[Some("a")], vec![]), None);
    assert_eq!(pick(&[], vec![env("e", Some(1), &["a"])]), None);
    assert_eq!(pick(&[None, None], vec![env("e", Some(1), &["a"])]), None);
    assert_eq!(pick(&[Some("a")], vec![env("e", Some(1), &["b"]), env("f", None, &[])]), None);
}
