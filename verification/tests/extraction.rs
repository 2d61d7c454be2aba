use handoff::conversation::{
    AIAgentAction, AIAgentActionType, AIAgentExchange, AIAgentOutput, AIAgentOutputMessage,
    AIAgentOutputMessageType, AIConversation, FileEdit, FileLocations, ReadFilesRequest,
    SearchCodebaseRequest, UploadArtifactRequest,
};
use handoff::extraction::{
    extract_action_paths, extract_paths_from_conversation, push_resolved, MAX_TOOL_CALLS_TO_SCAN,
};
use handoff::path_list::PathList;

fn resolved(raw: Option<&str>, cwd: Option<&str>) -> Vec<String> {
    let mut paths = PathList::new();
    push_resolved(raw, cwd, &mut paths);
    paths.into_paths()
}

fn touched(action: AIAgentActionType, cwd: Option<&str>) -> Vec<String> {
    let mut paths = PathList::new();
    extract_action_paths(&AIAgentAction { action }, cwd, &mut paths);
    paths.into_paths()
}

fn message(action: AIAgentActionType) -> AIAgentOutputMessage {
    AIAgentOutputMessage {
        message: AIAgentOutputMessageType::Action(AIAgentAction { action }),
    }
}

fn other() -> AIAgentOutputMessage {
    AIAgentOutputMessage { message: AIAgentOutputMessageType::Other }
}

fn grep(path: &str) -> AIAgentOutputMessage {
    message(AIAgentActionType::Grep { path: path.to_string() })
}

fn exchange(cwd: Option<&str>, messages: Vec<AIAgentOutputMessage>) -> AIAgentExchange {
    AIAgentExchange {
        working_directory: cwd.map(|c| c.to_string()),
        output: Some(AIAgentOutput { messages }),
    }
}

fn extracted(exchanges: Vec<AIAgentExchange>) -> Vec<String> {
    extract_paths_from_conversation(&AIConversation { exchanges })
}

#[test]
fn absolute_paths_are_kept_and_others_resolved() {
    assert_eq!(resolved(Some("/a/b"), Some("/w")), vec!["/a/b"]);
    assert_eq!(resolved(Some("/a/b"), None), vec!["/a/b"]);
    assert_eq!(resolved(Some("a/b"), Some("/w")), vec!["/w/a/b"]);
    assert_eq!(resolved(Some("a/b"), Some("w/")), vec!["w/a/b"]);
    assert_eq!(resolved(Some("../b"), Some("/w")), vec!["/w/../b"]);
    assert_eq!(resolved(Some(" \t a \n"), Some("/w")), vec!["/w/a"]);
    assert_eq!(resolved(Some("\u{a0}/a\u{3000}"), None), vec!["/a"]);
}

#[test]
fn entries_that_point_nowhere_add_nothing() {
    assert!(resolved(None, Some("/w")).is_empty());
    assert!(resolved(Some(""), Some("/w")).is_empty());
    assert!(resolved(Some(" \n "), Some("/w")).is_empty());
    assert!(resolved(Some("a/b"), None).is_empty());
}

#[test]
fn every_action_with_paths_adds_them() {
    let edits = vec![
        FileEdit { file: Some("a.rs".to_string()) },
        FileEdit { file: None },
        FileEdit { file: Some("/b.rs".to_string()) },
        FileEdit { file: Some("./a.rs".to_string()) },
    ];
    assert_eq!(
        touched(AIAgentActionType::RequestFileEdits { file_edits: edits }, Some("/w")),
        vec!["/w/a.rs", "/b.rs"]
    );
    let locations =
        vec![FileLocations { name: "x".to_string() }, FileLocations { name: "/y".to_string() }];
    assert_eq!(
        touched(AIAgentActionType::ReadFiles(ReadFilesRequest { locations }), Some("/w")),
        vec!["/w/x", "/y"]
    );
    assert_eq!(
        touched(AIAgentActionType::Grep { path: "src".to_string() }, Some("/w")),
        vec!["/w/src"]
    );
    assert_eq!(
        touched(AIAgentActionType::FileGlob { path: Some("src".to_string()) }, Some("/w")),
        vec!["/w/src"]
    );
    assert!(touched(AIAgentActionType::FileGlob { path: None }, Some("/w")).is_empty());
    assert_eq!(
        touched(AIAgentActionType::FileGlobV2 { search_dir: Some("/d".to_string()) }, None),
        vec!["/d"]
    );
    assert!(touched(AIAgentActionType::FileGlobV2 { search_dir: None }, Some("/w")).is_empty());
    assert_eq!(
        touched(
            AIAgentActionType::UploadArtifact(UploadArtifactRequest {
                file_path: "out.log".to_string()
            }),
            Some("/w")
        ),
        vec!["/w/out.log"]
    );
}

#[test]
fn code_search_takes_only_absolute_partial_paths() {
    let request = |codebase: Option<&str>, partial: Option<Vec<&str>>| {
        AIAgentActionType::SearchCodebase(SearchCodebaseRequest {
            codebase_path: codebase.map(|c| c.to_string()),
            partial_paths: partial.map(|v| v.iter().map(|p| p.to_string()).collect()),
        })
    };
    assert_eq!(
        touched(request(Some("code"), Some(vec!["rel", "/abs ", " /padded", "/code"])), Some("/")),
        vec!["/code", "/abs"]
    );
    assert_eq!(touched(request(None, Some(vec!["/p"])), None), vec!["/p"]);
    assert_eq!(touched(request(Some("/c"), None), None), vec!["/c"]);
    assert!(touched(request(None, None), Some("/w")).is_empty());
}

#[test]
fn review_repositories_are_taken_as_written() {
    let review = |path: &str| AIAgentActionType::InsertCodeReviewComments {
        repo_path: path.to_string(),
    };
    assert_eq!(touched(review("/repo"), Some("/w")), vec!["/repo"]);
    assert_eq!(touched(review("/repo "), None), vec!["/repo "]);
    assert_eq!(touched(review("repo"), Some("/w")), vec!["/w/repo"]);
    assert_eq!(touched(review("repo"), None), vec!["repo"]);
}

#[test]
fn actions_without_paths_add_nothing() {
    for action in [
        AIAgentActionType::RequestCommandOutput,
        AIAgentActionType::WriteToLongRunningShellCommand,
        AIAgentActionType::ReadShellCommandOutput,
        AIAgentActionType::ReadMCPResource,
        AIAgentActionType::CallMCPTool,
        AIAgentActionType::SuggestNewConversation,
        AIAgentActionType::SuggestPrompt,
        AIAgentActionType::InitProject,
        AIAgentActionType::OpenCodeReview,
        AIAgentActionType::ReadDocuments,
        AIAgentActionType::EditDocuments,
        AIAgentActionType::CreateDocuments,
        AIAgentActionType::UseComputer,
        AIAgentActionType::RequestComputerUse,
        AIAgentActionType::ReadSkill,
        AIAgentActionType::FetchConversation,
        AIAgentActionType::StartAgent,
        AIAgentActionType::SendMessageToAgent,
        AIAgentActionType::TransferShellCommandControlToUser,
        AIAgentActionType::AskUserQuestion,
    ] {
        assert!(touched(action, Some("/w")).is_empty());
    }
}

#[test]
fn newest_exchange_comes_first_and_nothing_twice() {
    let paths = extracted(vec![
        exchange(Some("/old"), vec![grep("/a"), other(), grep("/b")]),
        exchange(Some("/new/"), vec![grep("/b/"), grep("c"), grep("/new")]),
    ]);
    assert_eq!(paths, vec!["/new/", "/b/", "/new/c", "/old", "/a"]);
}

#[test]
fn working_directories_count_where_they_are_absolute() {
    let paths = extracted(vec![
        AIAgentExchange { working_directory: Some("/w".to_string()), output: None },
        exchange(Some("rel"), vec![grep("x")]),
        exchange(None, vec![grep("x"), grep("/y")]),
    ]);
    assert_eq!(paths, vec!["/y", "rel/x", "/w"]);
    assert!(extracted(vec![]).is_empty());
}

#[test]
fn only_the_most_recent_calls_are_scanned() {
    assert_eq!(MAX_TOOL_CALLS_TO_SCAN, 500);
    let calls = |from: usize, to: usize| (from..to).map(|i| grep(&format!("/p{i}"))).collect();
    // The cut falls between two exchanges.
    let paths = extracted(vec![
        exchange(Some("/older"), vec![grep("/gone")]),
        exchange(Some("/newer"), calls(0, 500)),
    ]);
    assert_eq!(paths.len(), 501);
    assert_eq!(paths[0], "/newer");
    assert_eq!(paths[500], "/p499");
    // The cut falls inside the older exchange, whose latest calls are kept.
    let paths = extracted(vec![
        exchange(Some("/oldest"), vec![grep("/never")]),
        exchange(Some("/older"), vec![grep("/x1"), other(), grep("/x2"), grep("/x3")]),
        exchange(None, calls(0, 498)),
    ]);
    assert_eq!(paths.len(), 501);
    assert_eq!(paths[498..], ["/older", "/x2", "/x3"]);
    // One exchange holds more calls than are scanned.
    let paths = extracted(vec![exchange(None, calls(0, 503))]);
    assert_eq!(paths.len(), 500);
    assert_eq!(paths[0], "/p3");
    assert_eq!(paths[499], "/p502");
}

#[test]
fn calls_without_paths_use_up_the_budget() {
    let mut messages = vec![grep("/early")];
    for _ in 0..500 {
        messages.push(message(AIAgentActionType::InitProject));
    }
    assert!(extracted(vec![exchange(None, messages)]).is_empty());
    let messages: Vec<AIAgentOutputMessage> = (0..600).map(|_| other()).collect();
    let paths = extracted(vec![exchange(None, vec![grep("/early")]), exchange(None, messages)]);
    assert_eq!(paths, vec!["/early"]);
}

#[test]
fn extracted_paths_are_absolute_in_absolute_directories() {
    let paths = extracted(vec![
        exchange(Some("/w"), vec![grep("a"), grep("/b"), grep("./c")]),
        exchange(None, vec![grep("d"), grep("/e")]),
    ]);
    assert_eq!(paths, vec!["/e", "/w", "/w/a", "/b", "/w/./c"]);
    assert!(paths.iter().all(|p| p.starts_with('/')));
}
