use handoff::orchestrator::{
    prepare_handoff, snapshot_upload, HandoffPrepared, ServerConversationToken, SnapshotUpload,
};
use handoff::workspace::{TouchedRepo, TouchedWorkspace};

fn token() -> ServerConversationToken {
    ServerConversationToken { token: "conv-1".to_string() }
}

#[test]
fn upload_takes_the_roots_and_the_loose_files() {
    let workspace = TouchedWorkspace {
        repos: vec![
            TouchedRepo { git_root: "/b".to_string(), repo_id: None },
            TouchedRepo { git_root: "/a".to_string(), repo_id: None },
        ],
        orphan_files: vec!["/f".to_string()],
    };
    assert_eq!(
        snapshot_upload(&token(), workspace),
        SnapshotUpload {
            repo_paths: vec!["/b".to_string(), "/a".to_string()],
            orphan_file_paths: vec!["/f".to_string()],
            source_conversation_id: token(),
        }
    );
}

#[test]
fn prepared_handoff_forks_the_source_conversation() {
    let uploaded: Result<Option<String>, String> = Ok(Some("prep".to_string()));
    assert_eq!(
        prepare_handoff(uploaded, &token(), "go on".to_string()),
        Ok(HandoffPrepared {
            prep_token: Some("prep".to_string()),
            fork_from_conversation_id: "conv-1".to_string(),
            prompt: "go on".to_string(),
        })
    );
}

#[test]
fn an_empty_workspace_leaves_no_token() {
    let uploaded: Result<Option<String>, String> = Ok(None);
    let prepared = prepare_handoff(uploaded, &token(), String::new()).unwrap();
    assert_eq!(prepared.prep_token, None);
    assert_eq!(prepared.fork_from_conversation_id, "conv-1");
}

#[test]
fn a_failed_upload_is_passed_on() {
    let uploaded: Result<Option<String>, String> = Err("denied".to_string());
    assert_eq!(prepare_handoff(uploaded, &token(), "p".to_string()), Err("denied".to_string()));
}
