use handoff::git::{git_string, git_string_inner, origin_url_query, GitError, GitOutcome};

fn finished(success: bool, stdout: &[u8]) -> GitOutcome {
    GitOutcome::Finished { success, stdout: stdout.to_vec() }
}

#[test]
fn query_asks_for_the_origin_url() {
    let query = origin_url_query("/home/me/repo");
    assert_eq!(query.args, vec!["remote", "get-url", "origin"]);
    assert_eq!(query.dir, "/home/me/repo");
    assert_eq!(query.timeout_secs, 5);
}

#[test]
fn output_is_decoded_as_utf8() {
    assert_eq!(git_string_inner(finished(true, b" a\n")).ok(), Some(" a\n".to_string()));
    assert_eq!(
        git_string_inner(finished(true, "\u{e9}\u{4e2d}".as_bytes())).ok(),
        Some("\u{e9}\u{4e2d}".to_string())
    );
    assert_eq!(git_string_inner(finished(true, b"")).ok(), Some(String::new()));
}

#[test]
fn each_failure_has_its_error() {
    assert!(matches!(git_string_inner(finished(false, b"x")), Err(GitError::NonZeroStatus)));
    assert!(matches!(git_string_inner(finished(false, b"\xff")), Err(GitError::NonZeroStatus)));
    assert!(matches!(git_string_inner(finished(true, b"a\xffb")), Err(GitError::NotUtf8(_))));
    assert!(matches!(git_string_inner(GitOutcome::TimedOut), Err(GitError::TimedOut)));
    match git_string_inner(GitOutcome::NotRun("no such file".to_string())) {
        Err(GitError::InvocationFailed(reason)) => assert_eq!(reason, "no such file"),
        _ => panic!("the reason is lost"),
    }
}

#[test]
fn string_is_trimmed_and_never_empty() {
    assert_eq!(git_string(finished(true, b"  https://x/y \n")), Some("https://x/y".to_string()));
    assert_eq!(git_string(finished(true, b" \n")), None);
    assert_eq!(git_string(finished(true, b"")), None);
    assert_eq!(git_string(finished(false, b"x")), None);
    assert_eq!(git_string(finished(true, b"\xc0\x80")), None);
    assert_eq!(git_string(GitOutcome::TimedOut), None);
    assert_eq!(git_string(GitOutcome::NotRun(String::new())), None);
}

#[test]
fn each_error_has_its_words() {
    let words = |outcome: GitOutcome| match git_string_inner(outcome) {
        Ok(_) => panic!("no error"),
        Err(error) => error.message(),
    };
    assert_eq!(words(GitOutcome::TimedOut), "git timed out");
    assert_eq!(words(finished(false, b"x")), "git exited with non-zero status");
    assert_eq!(
        words(GitOutcome::NotRun("no such file".to_string())),
        "git invocation failed: no such file"
    );
    assert_eq!(
        words(finished(true, b"a\xffb")),
        String::from_utf8(b"a\xffb".to_vec()).unwrap_err().to_string()
    );
}
