use handoff::github::{parse_github_repo, GithubRepo};

fn repo(owner: &str, repo: &str) -> Option<GithubRepo> {
    Some(GithubRepo::new(owner.to_string(), repo.to_string()))
}

#[test]
fn parses_each_form() {
    assert_eq!(parse_github_repo("git@github.com:owner/repo.git"), repo("owner", "repo"));
    assert_eq!(parse_github_repo("git@github.com:owner/repo"), repo("owner", "repo"));
    assert_eq!(parse_github_repo("https://github.com/owner/repo.git"), repo("owner", "repo"));
    assert_eq!(parse_github_repo("https://github.com/owner/repo"), repo("owner", "repo"));
    assert_eq!(parse_github_repo("ssh://git@github.com/owner/repo.git"), repo("owner", "repo"));
    assert_eq!(parse_github_repo("ssh://git@github.com/owner/repo"), repo("owner", "repo"));
}

#[test]
fn white_space_around_the_url_does_not_count() {
    assert_eq!(parse_github_repo("  https://github.com/o/r\n"), repo("o", "r"));
    assert_eq!(
        parse_github_repo("\u{3000}\u{a0}\u{2003}git@github.com:o/r.git\u{2028}\u{85}\t"),
        repo("o", "r")
    );
    assert_eq!(parse_github_repo("\u{200b}https://github.com/o/r"), None);
    assert_eq!(parse_github_repo("https://github.com/o/r .git"), repo("o", "r "));
}

#[test]
fn trimming_agrees_with_the_white_space_property() {
    for n in 0u32..0x11_0000 {
        if let Some(c) = char::from_u32(n) {
            let listed = matches!(n,
                0x9..=0xd | 0x20 | 0x85 | 0xa0 | 0x1680 | 0x2000..=0x200a | 0x2028 | 0x2029
                | 0x202f | 0x205f | 0x3000);
            assert_eq!(c.is_whitespace(), listed, "U+{n:04X}");
        }
    }
}

#[test]
fn other_remotes_name_no_repo() {
    assert_eq!(parse_github_repo("https://gitlab.com/owner/repo.git"), None);
    assert_eq!(parse_github_repo("git@gitlab.com:owner/repo.git"), None);
    assert_eq!(parse_github_repo("http://github.com/owner/repo"), None);
    assert_eq!(parse_github_repo("HTTPS://github.com/owner/repo"), None);
    assert_eq!(parse_github_repo("/srv/git/repo.git"), None);
    assert_eq!(parse_github_repo(""), None);
    assert_eq!(parse_github_repo("   "), None);
}

#[test]
fn owner_and_repo_are_not_empty() {
    assert_eq!(parse_github_repo("https://github.com/owner"), None);
    assert_eq!(parse_github_repo("https://github.com/owner.git"), None);
    assert_eq!(parse_github_repo("https://github.com/owner/"), None);
    assert_eq!(parse_github_repo("https://github.com//repo"), None);
    assert_eq!(parse_github_repo("https://github.com/owner/.git"), None);
    assert_eq!(parse_github_repo("git@github.com:"), None);
}

#[test]
fn only_the_first_slash_and_one_suffix_count() {
    assert_eq!(parse_github_repo("https://github.com/o/r/tree/main"), repo("o", "r/tree/main"));
    assert_eq!(parse_github_repo("https://github.com/o/r/"), repo("o", "r/"));
    assert_eq!(parse_github_repo("https://github.com/o/r.git.git"), repo("o", "r.git"));
    assert_eq!(parse_github_repo("https://github.com/o/r.github"), repo("o", "r.github"));
}

#[test]
fn same_repo_compares_both_sides() {
    let a = GithubRepo::new("o".to_string(), "r".to_string());
    assert!(a.same_repo(&GithubRepo::new("o".to_string(), "r".to_string())));
    assert!(!a.same_repo(&GithubRepo::new("o".to_string(), "s".to_string())));
    assert!(!a.same_repo(&GithubRepo::new("p".to_string(), "r".to_string())));
    assert!(!a.same_repo(&GithubRepo::new("O".to_string(), "r".to_string())));
}
