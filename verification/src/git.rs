//! What is asked of git, and what its answer says.

use std::string::FromUtf8Error;

use vstd::prelude::*;
#[allow(unused_imports)]
use vstd::string::to_string_from_display_ensures;
#[allow(unused_imports)]
use vstd::utf8::{decode_utf8, valid_utf8};

#[allow(unused_imports)]
use crate::paths::texts;
use crate::text::trim;
#[allow(unused_imports)]
use crate::text::{
    has_bare_ends, is_all_white, is_white_space, law_trimmed_is_core, law_trimmed_is_trimmed,
    law_trimmed_parts, trimmed,
};

verus! {

/// The seconds after which a git invocation is given up, so that a stalled process cannot hold
/// up the handoff.
pub const GIT_COMMAND_TIMEOUT_SECS: u64 = 5;

/// The error of `String::from_utf8`.
#[verifier::external_type_specification]
#[verifier::external_body]
pub struct ExFromUtf8Error(FromUtf8Error);

/// `String::from_utf8` gives the string whose UTF-8 encoding the bytes are, and an error where
/// they are not valid UTF-8.
pub assume_specification[ String::from_utf8 ](vec: Vec<u8>) -> (res: Result<String, FromUtf8Error>)
    ensures
        match res {
            Ok(s) => valid_utf8(vec@) && s@ == decode_utf8(vec@),
            Err(_) => !valid_utf8(vec@),
        },
;

/// One invocation of git.
pub struct GitQuery {
    /// The arguments of `git`.
    pub args: Vec<String>,
    /// The directory that it runs in.
    pub dir: String,
    /// The seconds that it may take.
    pub timeout_secs: u64,
}

/// How an invocation of git ended.
pub enum GitOutcome {
    /// It ran to its end.
    Finished {
        /// Whether it exited with status zero.
        success: bool,
        /// What it wrote to its standard output.
        stdout: Vec<u8>,
    },
    /// It could not be run, with the reason.
    NotRun(String),
    /// It did not end in time.
    TimedOut,
}

/// Why an invocation of git gave no text.
pub enum GitError {
    /// It could not be run, with the reason.
    InvocationFailed(String),
    /// It did not end in time.
    TimedOut,
    /// It exited with a status other than zero.
    NonZeroStatus,
    /// Its output is not UTF-8.
    NotUtf8(FromUtf8Error),
}

impl GitError {
    /// The error in words. Bytes that are not UTF-8 are described as `FromUtf8Error` displays
    /// itself.
    pub fn message(&self) -> (m: String)
        ensures
            match *self {
                GitError::InvocationFailed(reason) => m@ == "git invocation failed: "@ + reason@,
                GitError::TimedOut => m@ == "git timed out"@,
                GitError::NonZeroStatus => m@ == "git exited with non-zero status"@,
                GitError::NotUtf8(error) => to_string_from_display_ensures(&error, m),
            },
    {
        match self {
            GitError::InvocationFailed(reason) => "git invocation failed: ".to_owned().concat(
                reason.as_str(),
            ),
            GitError::TimedOut => "git timed out".to_owned(),
            GitError::NonZeroStatus => "git exited with non-zero status".to_owned(),
            GitError::NotUtf8(error) => error.to_string(),
        }
    }
}

/// `query` asks for the URL of the remote `origin` of the working tree at `git_root`.
pub open spec fn asks_origin_url(query: GitQuery, git_root: Seq<char>) -> bool {
    &&& texts(query.args@) == seq!["remote"@, "get-url"@, "origin"@]
    &&& query.dir@ == git_root
    &&& query.timeout_secs == GIT_COMMAND_TIMEOUT_SECS
}

/// The invocation that prints the URL of the remote `origin` of the working tree at `git_root`.
pub fn origin_url_query(git_root: &str) -> (query: GitQuery)
    ensures
        asks_origin_url(query, git_root@),
        query.args@.len() == 3,
        query.args@[0]@ == "remote"@,
        query.args@[1]@ == "get-url"@,
        query.args@[2]@ == "origin"@,
        query.dir@ == git_root@,
        query.timeout_secs == 5,
{
    let mut args: Vec<String> = Vec::new();
    args.push("remote".to_owned());
    args.push("get-url".to_owned());
    args.push("origin".to_owned());
    assert(texts(args@) =~= seq!["remote"@, "get-url"@, "origin"@]);
    GitQuery { args, dir: git_root.to_owned(), timeout_secs: GIT_COMMAND_TIMEOUT_SECS }
}

/// The text that an invocation of git wrote, where it succeeded and wrote UTF-8.
pub fn git_string_inner(outcome: GitOutcome) -> (text: Result<String, GitError>)
    ensures
        match outcome {
            GitOutcome::Finished { success, stdout } => if !success {
                text == Err::<String, GitError>(GitError::NonZeroStatus)
            } else if valid_utf8(stdout@) {
                text matches Ok(s) && s@ == decode_utf8(stdout@)
            } else {
                text matches Err(GitError::NotUtf8(_))
            },
            GitOutcome::NotRun(reason) => text == Err::<String, GitError>(
                GitError::InvocationFailed(reason),
            ),
            GitOutcome::TimedOut => text == Err::<String, GitError>(GitError::TimedOut),
        },
{
    match outcome {
        GitOutcome::Finished { success, stdout } => {
            if !success {
                return Err(GitError::NonZeroStatus);
            }
            match String::from_utf8(stdout) {
                Ok(s) => Ok(s),
                Err(e) => Err(GitError::NotUtf8(e)),
            }
        },
        GitOutcome::NotRun(reason) => Err(GitError::InvocationFailed(reason)),
        GitOutcome::TimedOut => Err(GitError::TimedOut),
    }
}

/// The trimmed text that an invocation of git wrote: `None` where it did not succeed, did not
/// write UTF-8, or wrote nothing but white space.
pub open spec fn trimmed_output(outcome: GitOutcome) -> Option<Seq<char>> {
    match outcome {
        GitOutcome::Finished { success, stdout } => {
            let text = trimmed(decode_utf8(stdout@));
            if success && valid_utf8(stdout@) && text.len() > 0 {
                Some(text)
            } else {
                None
            }
        },
        _ => None,
    }
}

/// The trimmed text that an invocation of git wrote, where there is any.
pub fn git_string(outcome: GitOutcome) -> (text: Option<String>)
    ensures
        match text {
            Some(t) => trimmed_output(outcome) == Some(t@),
            None => trimmed_output(outcome) is None,
        },
        text is Some <==> {
            &&& outcome matches GitOutcome::Finished { success, stdout }
            &&& success
            &&& valid_utf8(stdout@)
            &&& !is_all_white(decode_utf8(stdout@))
        },
{
    proof {
        law_no_output(outcome);
    }
    match git_string_inner(outcome) {
        Ok(s) => {
            let t: String = trim(s.as_str()).to_owned();
            if t.as_str().is_empty() {
                None
            } else {
                Some(t)
            }
        },
        Err(_) => None,
    }
}

/// What is taken from git is never empty and has no white space around it.
pub proof fn law_output_is_trimmed(outcome: GitOutcome)
    ensures
        trimmed_output(outcome) matches Some(t) ==> t.len() > 0 && trimmed(t) == t,
{
    if let GitOutcome::Finished { success, stdout } = outcome {
        law_trimmed_is_trimmed(decode_utf8(stdout@));
    }
}

/// What is taken from git is all that it wrote but the white space before and behind it.
pub proof fn law_output_is_what_was_written(
    stdout: Vec<u8>,
    before: Seq<char>,
    text: Seq<char>,
    behind: Seq<char>,
)
    requires
        valid_utf8(stdout@),
        decode_utf8(stdout@) == before + text + behind,
        is_all_white(before),
        is_all_white(behind),
        text.len() > 0,
        has_bare_ends(text),
    ensures
        trimmed_output(GitOutcome::Finished { success: true, stdout }) == Some(text),
{
    law_trimmed_is_core(before, text, behind);
}

/// Nothing is taken exactly where git was not run, did not end in time, exited with a status
/// other than zero, wrote something else than UTF-8, or wrote nothing but white space.
pub proof fn law_no_output(outcome: GitOutcome)
    ensures
        trimmed_output(outcome) is None <==> {
            ||| outcome is NotRun
            ||| outcome is TimedOut
            ||| outcome matches GitOutcome::Finished { success, stdout } && (!success
                || !valid_utf8(stdout@) || is_all_white(decode_utf8(stdout@)))
        },
{
    if let GitOutcome::Finished { success, stdout } = outcome {
        let text = decode_utf8(stdout@);
        law_trimmed_parts(text);
        if is_all_white(text) {
            law_trimmed_is_core(text, Seq::empty(), Seq::empty());
            assert(text + Seq::<char>::empty() + Seq::<char>::empty() =~= text);
        } else if trimmed(text).len() == 0 {
            let (before, behind): (Seq<char>, Seq<char>) = choose|
                before: Seq<char>,
                behind: Seq<char>,
            |
                {
                    &&& is_all_white(before)
                    &&& is_all_white(behind)
                    &&& text == #[trigger] (before + trimmed(text) + behind)
                };
            assert forall|i: int| 0 <= i < text.len() implies is_white_space(#[trigger] text[i]) by {
                if i < before.len() {
                    assert(text[i] == before[i]);
                } else {
                    assert(text[i] == behind[i - before.len()]);
                }
            }
        }
    }
}

} // verus!
