//! What the handoff reads of an agent conversation: its exchanges, oldest first, and in each
//! the working directory and the actions that the agent asked for.

use vstd::prelude::*;

verus! {

/// A conversation, as the list of its exchanges from the oldest to the newest.
pub struct AIConversation {
    pub exchanges: Vec<AIAgentExchange>,
}

/// One exchange between the user and the agent.
pub struct AIAgentExchange {
    /// The directory in which the exchange took place.
    pub working_directory: Option<String>,
    /// What the agent answered, where it has answered.
    pub output: Option<AIAgentOutput>,
}

/// The agent's side of an exchange, as the list of its messages in order.
pub struct AIAgentOutput {
    pub messages: Vec<AIAgentOutputMessage>,
}

pub struct AIAgentOutputMessage {
    pub message: AIAgentOutputMessageType,
}

pub enum AIAgentOutputMessageType {
    /// A tool call.
    Action(AIAgentAction),
    /// Text, reasoning, and whatever else is not a tool call.
    Other,
}

pub struct AIAgentAction {
    pub action: AIAgentActionType,
}

/// One edit of a file, with the file's path where the edit has one.
pub struct FileEdit {
    pub file: Option<String>,
}

/// One file, or a part of one, that the agent reads.
pub struct FileLocations {
    pub name: String,
}

pub struct ReadFilesRequest {
    pub locations: Vec<FileLocations>,
}

pub struct SearchCodebaseRequest {
    pub codebase_path: Option<String>,
    pub partial_paths: Option<Vec<String>>,
}

pub struct UploadArtifactRequest {
    pub file_path: String,
}

/// The tool calls, each with the paths that it carries.
#[allow(inconsistent_fields)]
pub enum AIAgentActionType {
    RequestFileEdits { file_edits: Vec<FileEdit> },
    ReadFiles(ReadFilesRequest),
    Grep { path: String },
    FileGlob { path: Option<String> },
    FileGlobV2 { search_dir: Option<String> },
    SearchCodebase(SearchCodebaseRequest),
    InsertCodeReviewComments { repo_path: String },
    UploadArtifact(UploadArtifactRequest),
    RequestCommandOutput,
    WriteToLongRunningShellCommand,
    ReadShellCommandOutput,
    ReadMCPResource,
    CallMCPTool,
    SuggestNewConversation,
    SuggestPrompt,
    InitProject,
    OpenCodeReview,
    ReadDocuments,
    EditDocuments,
    CreateDocuments,
    UseComputer,
    RequestComputerUse,
    ReadSkill,
    FetchConversation,
    StartAgent,
    SendMessageToAgent,
    TransferShellCommandControlToUser,
    AskUserQuestion,
}

} // verus!
