//! The deciding half of handing a local agent conversation off to the cloud: which paths
//! the conversation touched, which git repositories and loose files those paths belong to,
//! which cloud environment fits them best, and what is sent when the handoff is prepared.

pub mod action_laws;
pub mod conversation;
pub mod disk;
pub mod environment_laws;
pub mod environments;
pub mod extraction;
pub mod extraction_laws;
pub mod git;
pub mod git_root;
pub mod github;
pub mod orchestrator;
pub mod path_list;
pub mod paths;
pub mod scan_laws;
pub mod text;
pub mod workspace;
pub mod workspace_laws;
