use handoff::git_root::{find_git_root, nearest_git_root};
use tempfile::{Builder, NamedTempFile, TempDir};

fn dir_in(parent: &TempDir, name: &str) -> TempDir {
    Builder::new().prefix(name).rand_bytes(0).tempdir_in(parent.path()).unwrap()
}

fn file_in(parent: &TempDir, name: &str) -> NamedTempFile {
    Builder::new().prefix(name).rand_bytes(0).tempfile_in(parent.path()).unwrap()
}

fn text(path: &std::path::Path) -> &str {
    path.to_str().unwrap()
}

#[test]
fn find_git_root_walks_up_to_dot_git() {
    let tmp = tempfile::tempdir().unwrap();
    let repo = dir_in(&tmp, "repo");
    let src = dir_in(&repo, "src");
    let nested = dir_in(&src, "nested");
    let _dot_git = dir_in(&repo, ".git");

    let file_in_repo = file_in(&nested, "foo.rs");

    let root = find_git_root(text(file_in_repo.path())).expect("root for file inside repo");
    assert_eq!(root, text(repo.path()));

    let root_for_dir = find_git_root(text(nested.path())).expect("root for directory inside repo");
    assert_eq!(root_for_dir, text(repo.path()));

    let not_a_repo = dir_in(&tmp, "not_a_repo");
    let outside = file_in(&not_a_repo, "file.txt");
    assert!(find_git_root(text(outside.path())).is_none());
}

#[test]
fn a_git_file_marks_a_working_tree_too() {
    let tmp = tempfile::tempdir().unwrap();
    let worktree = dir_in(&tmp, "worktree");
    let _dot_git = file_in(&worktree, ".git");
    assert_eq!(find_git_root(text(worktree.path())).as_deref(), Some(text(worktree.path())));
}

#[test]
fn a_missing_path_is_looked_for_from_its_parent() {
    let tmp = tempfile::tempdir().unwrap();
    let repo = dir_in(&tmp, "repo");
    let _dot_git = dir_in(&repo, ".git");
    let missing = format!("{}/no/such/file.rs", text(repo.path()));
    assert_eq!(find_git_root(&missing).as_deref(), Some(text(repo.path())));
}

#[test]
fn the_nearest_working_tree_wins() {
    let exists = |p: &str| p == "/a/.git" || p == "/a/b/c/.git";
    assert_eq!(nearest_git_root("/a/b/c/d.rs", false, exists).as_deref(), Some("/a/b/c"));
    assert_eq!(nearest_git_root("/a/b/c", true, exists).as_deref(), Some("/a/b/c"));
    assert_eq!(nearest_git_root("/a/b/c", false, exists).as_deref(), Some("/a"));
    assert_eq!(nearest_git_root("/a/b", true, exists).as_deref(), Some("/a"));
    assert_eq!(nearest_git_root("/b/c", true, exists), None);
}

#[test]
fn the_walk_ends_at_the_root() {
    assert_eq!(nearest_git_root("/a/b", false, |p: &str| p == "/.git").as_deref(), Some("/"));
    assert_eq!(nearest_git_root("/", true, |_: &str| true).as_deref(), Some("/"));
    assert_eq!(nearest_git_root("/", false, |_: &str| true), None);
    assert_eq!(nearest_git_root("", false, |_: &str| true), None);
    assert_eq!(nearest_git_root("a", false, |p: &str| p == ".git").as_deref(), Some(""));
    assert_eq!(nearest_git_root("a/b", false, |_: &str| false), None);
}

#[test]
fn the_root_is_a_start_of_the_path() {
    let root = nearest_git_root("/a//b/./c/d", false, |p: &str| p == "/a//b/.git");
    assert_eq!(root.as_deref(), Some("/a//b"));
}
