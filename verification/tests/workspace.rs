use handoff::git::GitOutcome;
use handoff::github::GithubRepo;
use handoff::workspace::{
    gather_repo_metadata, group_places, group_touched_paths, locate, origin_url_queries,
    touched_workspace, GroupedPaths, Place, TouchedRepo, TouchedWorkspace,
};
use tempfile::Builder;

fn printed(url: &str) -> GitOutcome {
    GitOutcome::Finished { success: true, stdout: url.as_bytes().to_vec() }
}

fn strings(texts: &[&str]) -> Vec<String> {
    texts.iter().map(|t| t.to_string()).collect()
}

#[test]
fn default_workspace_is_empty() {
    let workspace = TouchedWorkspace::default();
    assert!(workspace.repos.is_empty());
    assert!(workspace.orphan_files.is_empty());
}

#[test]
fn no_paths_give_the_default_workspace() {
    let grouped = group_touched_paths(&Vec::new());
    assert_eq!(touched_workspace(grouped, Vec::new()), TouchedWorkspace::default());
}

#[test]
fn places_are_grouped_in_order() {
    let grouped = group_places(&vec![
        Place::InRepo("/r/one".to_string()),
        Place::LooseFile("/tmp/a".to_string()),
        Place::Elsewhere,
        Place::InRepo("/r/two".to_string()),
        Place::InRepo("/r//one/".to_string()),
        Place::LooseFile("/tmp/b".to_string()),
        Place::LooseFile("/tmp/a".to_string()),
    ]);
    assert_eq!(grouped.git_roots, strings(&["/r/one", "/r/two"]));
    assert_eq!(grouped.orphan_files, strings(&["/tmp/a", "/tmp/b", "/tmp/a"]));
}

#[test]
fn paths_are_grouped_by_what_is_on_disk() {
    let tmp = tempfile::tempdir().unwrap();
    let inside = |parent: &std::path::Path, name: &str| {
        Builder::new().prefix(name).rand_bytes(0).tempdir_in(parent).unwrap()
    };
    let repo = inside(tmp.path(), "repo");
    let _dot_git = inside(repo.path(), ".git");
    let src = inside(repo.path(), "src");
    let loose_dir = inside(tmp.path(), "loose");
    let loose_file =
        Builder::new().prefix("notes.txt").rand_bytes(0).tempfile_in(loose_dir.path()).unwrap();
    let text = |p: &std::path::Path| p.to_str().unwrap().to_string();
    let missing = format!("{}/missing.txt", text(loose_dir.path()));

    assert!(matches!(locate(&text(src.path())), Place::InRepo(root) if root == text(repo.path())));
    assert!(matches!(
        locate(&text(loose_file.path())),
        Place::LooseFile(file) if file == text(loose_file.path())
    ));
    assert!(matches!(locate(&text(loose_dir.path())), Place::Elsewhere));
    assert!(matches!(locate(&missing), Place::Elsewhere));

    let grouped = group_touched_paths(&vec![
        text(src.path()),
        text(loose_dir.path()),
        text(loose_file.path()),
        missing,
        text(repo.path()),
    ]);
    assert_eq!(grouped.git_roots, vec![text(repo.path())]);
    assert_eq!(grouped.orphan_files, vec![text(loose_file.path())]);
}

#[test]
fn metadata_takes_the_repo_from_the_remote() {
    let repo = gather_repo_metadata("/r".to_string(), printed("git@github.com:o/n.git\n"));
    assert_eq!(repo.git_root, "/r");
    assert_eq!(repo.repo_id, Some(GithubRepo::new("o".to_string(), "n".to_string())));
}

#[test]
fn metadata_failures_leave_the_repo_unnamed() {
    for outcome in [
        printed("https://gitlab.com/o/n.git"),
        printed(" \n"),
        GitOutcome::TimedOut,
        GitOutcome::NotRun("no git".to_string()),
        GitOutcome::Finished { success: false, stdout: b"git@github.com:o/n.git".to_vec() },
        GitOutcome::Finished { success: true, stdout: vec![0xff] },
    ] {
        let repo = gather_repo_metadata("/r".to_string(), outcome);
        assert_eq!(repo, TouchedRepo { git_root: "/r".to_string(), repo_id: None });
    }
}

#[test]
fn workspace_pairs_each_root_with_its_remote() {
    let grouped = GroupedPaths {
        git_roots: strings(&["/one", "/two"]),
        orphan_files: strings(&["/f"]),
    };
    let workspace =
        touched_workspace(grouped, vec![GitOutcome::TimedOut, printed("https://github.com/o/n")]);
    assert_eq!(
        workspace,
        TouchedWorkspace {
            repos: vec![
                TouchedRepo { git_root: "/one".to_string(), repo_id: None },
                TouchedRepo {
                    git_root: "/two".to_string(),
                    repo_id: Some(GithubRepo::new("o".to_string(), "n".to_string())),
                },
            ],
            orphan_files: strings(&["/f"]),
        }
    );
}

#[test]
fn git_is_asked_once_about_each_root() {
    let grouped = group_places(&vec![
        Place::InRepo("/two".to_string()),
        Place::InRepo("/one".to_string()),
        Place::InRepo("/two/.".to_string()),
        Place::LooseFile("/f".to_string()),
    ]);
    let queries = origin_url_queries(&grouped);
    let dirs: Vec<&str> = queries.iter().map(|q| q.dir.as_str()).collect();
    assert_eq!(dirs, vec!["/two", "/one"]);
    for query in &queries {
        assert_eq!(query.args, vec!["remote", "get-url", "origin"]);
        assert_eq!(query.timeout_secs, 5);
    }
    let none = GroupedPaths { git_roots: Vec::new(), orphan_files: strings(&["/f"]) };
    assert!(origin_url_queries(&none).is_empty());
}
