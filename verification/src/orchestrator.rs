//! Preparing the handoff: what is uploaded of the touched workspace, and what the cloud agent is
//! started with once that is done.

use vstd::prelude::*;

#[allow(unused_imports)]
use crate::path_list::distinct_paths;
#[allow(unused_imports)]
use crate::paths::texts;
use crate::workspace::TouchedWorkspace;
#[allow(unused_imports)]
use crate::workspace::{GroupedPaths, TouchedRepo};

verus! {

/// The server's name for a conversation.
#[derive(Clone, Debug, PartialEq, Eq)]
pub struct ServerConversationToken {
    pub token: String,
}

impl ServerConversationToken {
    pub fn as_str(&self) -> (token: &str)
        ensures
            token@ == self.token@,
    {
        self.token.as_str()
    }
}

/// What is uploaded before the cloud agent starts.
#[derive(Clone, Debug, PartialEq, Eq)]
pub struct SnapshotUpload {
    /// The roots of the repositories whose changes are uploaded.
    pub repo_paths: Vec<String>,
    /// The files that are uploaded as they are.
    pub orphan_file_paths: Vec<String>,
    /// The conversation that is handed off.
    pub source_conversation_id: ServerConversationToken,
}

/// The outcome of a successful upload, from which the cloud agent is started.
#[derive(Clone, Debug, PartialEq, Eq)]
pub struct HandoffPrepared {
    /// The token under which the upload is found; `None` where there was nothing to upload.
    pub prep_token: Option<String>,
    /// The conversation that the cloud agent's conversation is forked from.
    pub fork_from_conversation_id: String,
    /// What the user asked of the cloud agent.
    pub prompt: String,
}

/// The root of each touched repository, in order.
pub open spec fn roots_of(repos: Seq<TouchedRepo>) -> Seq<Seq<char>> {
    repos.map_values(|r: TouchedRepo| r.git_root@)
}

/// What is uploaded of a touched workspace: the roots of its repositories and its loose files.
pub fn snapshot_upload(
    source_conversation_id: &ServerConversationToken,
    workspace: TouchedWorkspace,
) -> (upload: SnapshotUpload)
    ensures
        texts(upload.repo_paths@) == roots_of(workspace.repos@),
        upload.repo_paths@.len() == workspace.repos@.len(),
        forall|i: int|
            0 <= i < workspace.repos@.len() ==> (#[trigger] upload.repo_paths@[i])@
                == workspace.repos@[i].git_root@,
        upload.orphan_file_paths == workspace.orphan_files,
        upload.source_conversation_id == *source_conversation_id,
{
    let mut repo_paths: Vec<String> = Vec::new();
    let mut i: usize = 0;
    while i < workspace.repos.len()
        invariant
            i <= workspace.repos@.len(),
            repo_paths@.len() == i,
            forall|j: int|
                0 <= j < i ==> (#[trigger] repo_paths@[j])@ == workspace.repos@[j].git_root@,
        decreases workspace.repos@.len() - i,
    {
        repo_paths.push(workspace.repos[i].git_root.clone());
        i = i + 1;
    }
    assert(texts(repo_paths@) =~= roots_of(workspace.repos@));
    SnapshotUpload {
        repo_paths,
        orphan_file_paths: workspace.orphan_files,
        source_conversation_id: ServerConversationToken {
            token: source_conversation_id.token.clone(),
        },
    }
}

/// What the cloud agent is started with, given how the upload ended. A failed upload ends the
/// handoff with the same error.
pub fn prepare_handoff<E>(
    uploaded: Result<Option<String>, E>,
    source_conversation_id: &ServerConversationToken,
    prompt: String,
) -> (prepared: Result<HandoffPrepared, E>)
    ensures
        match uploaded {
            Ok(token) => prepared matches Ok(p) && p.prep_token == token
                && p.fork_from_conversation_id@ == source_conversation_id.token@ && p.prompt
                == prompt,
            Err(e) => prepared == Err::<HandoffPrepared, E>(e),
        },
{
    match uploaded {
        Ok(prep_token) => Ok(
            HandoffPrepared {
                prep_token,
                fork_from_conversation_id: source_conversation_id.as_str().to_owned(),
                prompt,
            },
        ),
        Err(e) => Err(e),
    }
}

/// What is uploaded names the root of every grouped working tree, in order, and none twice.
pub proof fn law_upload_names_each_root_once(
    grouped: GroupedPaths,
    workspace: TouchedWorkspace,
    upload: SnapshotUpload,
)
    requires
        distinct_paths(texts(grouped.git_roots@)),
        workspace.repos@.len() == grouped.git_roots@.len(),
        forall|i: int|
            0 <= i < workspace.repos@.len() ==> (#[trigger] workspace.repos@[i]).git_root@
                == grouped.git_roots@[i]@,
        texts(upload.repo_paths@) == roots_of(workspace.repos@),
    ensures
        texts(upload.repo_paths@) == texts(grouped.git_roots@),
        distinct_paths(texts(upload.repo_paths@)),
{
    assert(roots_of(workspace.repos@) =~= texts(grouped.git_roots@));
}

} // verus!
