//! GitHub repositories and the remote URLs that name them.

use vstd::prelude::*;

use crate::text::{find_slash, same_text, strip_prefix, strip_suffix_or_all, trim};
#[allow(unused_imports)]
use crate::text::{
    after_prefix, is_all_white, is_white_space, law_after_prefix, law_trimmed_is_core,
    law_trimmed_is_trimmed, trimmed, without_suffix,
};

verus! {

/// A repository on GitHub, `<owner>/<repo>`.
#[derive(Clone, Debug, PartialEq, Eq)]
pub struct GithubRepo {
    pub owner: String,
    pub repo: String,
}

impl View for GithubRepo {
    type V = (Seq<char>, Seq<char>);

    open spec fn view(&self) -> (Seq<char>, Seq<char>) {
        (self.owner@, self.repo@)
    }
}

impl GithubRepo {
    pub fn new(owner: String, repo: String) -> (r: Self)
        ensures
            r@ == (owner@, repo@),
            r.owner@ == owner@,
            r.repo@ == repo@,
    {
        GithubRepo { owner, repo }
    }

    /// Whether both name the same repository.
    pub fn same_repo(&self, other: &GithubRepo) -> (same: bool)
        ensures
            same == (self@ == other@),
            same == (self.owner@ == other.owner@ && self.repo@ == other.repo@),
    {
        same_text(self.owner.as_str(), other.owner.as_str()) && same_text(
            self.repo.as_str(),
            other.repo.as_str(),
        )
    }
}

/// What precedes the first slash of `s`; all of `s` where it has none.
pub open spec fn before_slash(s: Seq<char>) -> Seq<char>
    decreases s.len(),
{
    if s.len() == 0 || s.first() == '/' {
        Seq::empty()
    } else {
        seq![s.first()] + before_slash(s.drop_first())
    }
}

/// What follows the GitHub host in a remote URL, white space around the URL aside: the SSH
/// form, the HTTPS form, or SSH written as a URL.
pub open spec fn github_path(url: Seq<char>) -> Option<Seq<char>> {
    let t = trimmed(url);
    match after_prefix(t, "git@github.com:"@) {
        Some(path) => Some(path),
        None => match after_prefix(t, "https://github.com/"@) {
            Some(path) => Some(path),
            None => after_prefix(t, "ssh://git@github.com/"@),
        },
    }
}

/// `<owner>/<repo>`, parted at the first slash, where neither side is empty.
pub open spec fn owner_and_repo(path: Seq<char>) -> Option<(Seq<char>, Seq<char>)> {
    let owner = before_slash(path);
    if 0 < owner.len() && owner.len() + 1 < path.len() {
        Some((owner, path.skip(owner.len() as int + 1)))
    } else {
        None
    }
}

/// The repository that a remote URL names. One `.git` at the end of the URL is not part of the
/// name.
pub open spec fn named_repo(url: Seq<char>) -> Option<(Seq<char>, Seq<char>)> {
    match github_path(url) {
        Some(path) => owner_and_repo(without_suffix(path, ".git"@)),
        None => None,
    }
}

proof fn lemma_before_slash(owner: Seq<char>, rest: Seq<char>)
    requires
        !owner.contains('/'),
    ensures
        before_slash(owner + seq!['/'] + rest) == owner,
        before_slash(owner) == owner,
    decreases owner.len(),
{
    let s = owner + seq!['/'] + rest;
    if owner.len() > 0 {
        assert(owner[0] == owner.first());
        let tail = owner.drop_first();
        assert(!tail.contains('/')) by {
            if tail.contains('/') {
                let i = choose|i: int| 0 <= i < tail.len() && tail[i] == '/';
                assert(owner[i + 1] == '/');
            }
        }
        lemma_before_slash(tail, rest);
        assert(s.drop_first() =~= tail + seq!['/'] + rest);
        assert(seq![owner.first()] + tail =~= owner);
        assert(s.first() == owner.first());
    }
}

/// Parses a GitHub remote URL: `git@github.com:owner/repo`, `https://github.com/owner/repo` or
/// `ssh://git@github.com/owner/repo`, each with or without `.git` at its end. Any other remote
/// gives `None`.
pub fn parse_github_repo(remote_url: &str) -> (repo: Option<GithubRepo>)
    ensures
        match repo {
            Some(r) => named_repo(remote_url@) == Some((r.owner@, r.repo@)),
            None => named_repo(remote_url@) is None,
        },
{
    let trimmed_url = trim(remote_url);
    let path_part = if let Some(rest) = strip_prefix(trimmed_url, "git@github.com:") {
        rest
    } else if let Some(rest) = strip_prefix(trimmed_url, "https://github.com/") {
        rest
    } else if let Some(rest) = strip_prefix(trimmed_url, "ssh://git@github.com/") {
        rest
    } else {
        return None;
    };
    assert(github_path(remote_url@) == Some(path_part@));
    let body = strip_suffix_or_all(path_part, ".git");
    let n: usize = body.unicode_len();
    match find_slash(body) {
        None => {
            proof {
                lemma_before_slash(body@, Seq::empty());
            }
            None
        },
        Some(i) => {
            let owner = body.substring_char(0, i);
            let repo = body.substring_char(i + 1, n);
            proof {
                assert(body@.take(i as int) =~= owner@);
                assert(body@ =~= owner@ + seq!['/'] + repo@);
                lemma_before_slash(owner@, repo@);
                assert(body@.skip(i + 1) =~= repo@);
            }
            if owner.is_empty() || repo.is_empty() {
                return None;
            }
            Some(GithubRepo::new(owner.to_owned(), repo.to_owned()))
        },
    }
}

/// The three texts that a GitHub remote URL can start with.
pub open spec fn is_github_prefix(prefix: Seq<char>) -> bool {
    ||| prefix == "git@github.com:"@
    ||| prefix == "https://github.com/"@
    ||| prefix == "ssh://git@github.com/"@
}

proof fn lemma_trimmed_is_same(s: Seq<char>)
    requires
        s.len() > 0,
        !is_white_space(s.first()),
        !is_white_space(s.last()),
    ensures
        trimmed(s) == s,
{
}

proof fn lemma_github_path(prefix: Seq<char>, path: Seq<char>)
    requires
        is_github_prefix(prefix),
        path.len() > 0,
        !is_white_space(path.last()),
    ensures
        github_path(prefix + path) == Some(path),
{
    reveal_strlit("git@github.com:");
    reveal_strlit("https://github.com/");
    reveal_strlit("ssh://git@github.com/");
    let url = prefix + path;
    assert(url.first() == prefix[0]);
    assert(url.last() == path.last());
    lemma_trimmed_is_same(url);
    assert(prefix.is_prefix_of(url));
    assert(url.skip(prefix.len() as int) =~= path);
    assert("git@github.com:"@.is_prefix_of(url) ==> "git@github.com:"@[0] == url[0]);
    assert("https://github.com/"@.is_prefix_of(url) ==> "https://github.com/"@[0] == url[0]);
}

proof fn lemma_owner_and_repo(owner: Seq<char>, repo: Seq<char>)
    requires
        owner.len() > 0,
        !owner.contains('/'),
        repo.len() > 0,
    ensures
        owner_and_repo(owner + seq!['/'] + repo) == Some((owner, repo)),
{
    let path = owner + seq!['/'] + repo;
    lemma_before_slash(owner, repo);
    assert(path.skip(owner.len() as int + 1) =~= repo);
}

/// A GitHub URL with `.git` at its end names the owner and the repository that it is made of.
pub proof fn law_dot_git_url_names_repo(prefix: Seq<char>, owner: Seq<char>, repo: Seq<char>)
    requires
        is_github_prefix(prefix),
        owner.len() > 0,
        !owner.contains('/'),
        repo.len() > 0,
    ensures
        named_repo(prefix + (owner + seq!['/'] + repo + ".git"@)) == Some((owner, repo)),
{
    reveal_strlit(".git");
    let body = owner + seq!['/'] + repo;
    let path = body + ".git"@;
    assert(path.last() == 't');
    lemma_github_path(prefix, path);
    assert(".git"@.is_suffix_of(path)) by {
        assert(path.subrange(path.len() - 4, path.len() as int) =~= ".git"@);
    }
    assert(path.take(path.len() - 4) =~= body);
    lemma_owner_and_repo(owner, repo);
}

/// A GitHub URL without `.git` at its end names the owner and the repository that it is made
/// of.
pub proof fn law_plain_url_names_repo(prefix: Seq<char>, owner: Seq<char>, repo: Seq<char>)
    requires
        is_github_prefix(prefix),
        owner.len() > 0,
        !owner.contains('/'),
        repo.len() > 0,
        !is_white_space(repo.last()),
        !".git"@.is_suffix_of(owner + seq!['/'] + repo),
    ensures
        named_repo(prefix + (owner + seq!['/'] + repo)) == Some((owner, repo)),
{
    let path = owner + seq!['/'] + repo;
    assert(path.last() == repo.last());
    lemma_github_path(prefix, path);
    lemma_owner_and_repo(owner, repo);
}

/// A URL that starts with none of the GitHub prefixes, white space aside, names no repository.
pub proof fn law_other_remotes_name_nothing(url: Seq<char>)
    requires
        forall|prefix: Seq<char>| #[trigger]
            is_github_prefix(prefix) ==> !prefix.is_prefix_of(trimmed(url)),
    ensures
        named_repo(url) is None,
{
    assert(is_github_prefix("git@github.com:"@));
    assert(is_github_prefix("https://github.com/"@));
    assert(is_github_prefix("ssh://git@github.com/"@));
}

/// White space around a URL does not change what it names.
pub proof fn law_white_space_around_url_is_ignored(url: Seq<char>)
    ensures
        named_repo(trimmed(url)) == named_repo(url),
{
    law_trimmed_is_trimmed(url);
}

/// Neither side of a named repository is empty, and the owner holds no slash.
pub proof fn law_named_repo_is_well_formed(url: Seq<char>)
    ensures
        named_repo(url) matches Some(r) ==> r.0.len() > 0 && !r.0.contains('/') && r.1.len() > 0,
{
    if let Some(path) = github_path(url) {
        lemma_before_slash_has_none(without_suffix(path, ".git"@));
    }
}

proof fn lemma_before_slash_has_none(s: Seq<char>)
    ensures
        !before_slash(s).contains('/'),
    decreases s.len(),
{
    if s.len() > 0 && s.first() != '/' {
        let tail = before_slash(s.drop_first());
        lemma_before_slash_has_none(s.drop_first());
        assert forall|i: int| 0 <= i < before_slash(s).len() implies before_slash(s)[i] != '/' by {
            if i > 0 {
                assert(before_slash(s)[i] == tail[i - 1]);
                assert(tail.contains(tail[i - 1]));
            }
        }
    }
}

/// `url` is one of the three ways to write the remote URL of `<owner>/<repo>`, with `.git`
/// behind it.
pub open spec fn is_dot_git_url(url: Seq<char>, owner: Seq<char>, repo: Seq<char>) -> bool {
    ||| url == "git@github.com:"@ + owner + seq!['/'] + repo + ".git"@
    ||| url == "https://github.com/"@ + owner + seq!['/'] + repo + ".git"@
    ||| url == "ssh://git@github.com/"@ + owner + seq!['/'] + repo + ".git"@
}

/// `url` is one of the three ways to write the remote URL of `<owner>/<repo>`, without `.git`
/// behind it.
pub open spec fn is_plain_url(url: Seq<char>, owner: Seq<char>, repo: Seq<char>) -> bool {
    &&& !".git"@.is_suffix_of(repo)
    &&& {
        ||| url == "git@github.com:"@ + owner + seq!['/'] + repo
        ||| url == "https://github.com/"@ + owner + seq!['/'] + repo
        ||| url == "ssh://git@github.com/"@ + owner + seq!['/'] + repo
    }
}

/// Each of the three ways to write a GitHub remote URL, with `.git` behind it or without, with
/// any white space around it, names the owner and the repository that it is made of.
pub proof fn law_github_url_names_its_repo(
    before: Seq<char>,
    url: Seq<char>,
    behind: Seq<char>,
    owner: Seq<char>,
    repo: Seq<char>,
)
    requires
        is_all_white(before),
        is_all_white(behind),
        owner.len() > 0,
        !owner.contains('/'),
        repo.len() > 0,
        is_dot_git_url(url, owner, repo) || is_plain_url(url, owner, repo) && !is_white_space(
            repo.last(),
        ),
    ensures
        named_repo(before + url + behind) == Some((owner, repo)),
{
    reveal_strlit("git@github.com:");
    reveal_strlit("https://github.com/");
    reveal_strlit("ssh://git@github.com/");
    reveal_strlit(".git");
    let body = owner + seq!['/'] + repo;
    let tail = if is_dot_git_url(url, owner, repo) {
        body + ".git"@
    } else {
        body
    };
    let prefix = if url =~= "git@github.com:"@ + tail {
        "git@github.com:"@
    } else if url =~= "https://github.com/"@ + tail {
        "https://github.com/"@
    } else {
        "ssh://git@github.com/"@
    };
    assert(url =~= prefix + tail);
    assert(url[0] == prefix[0]);
    assert(url[url.len() - 1] == tail[tail.len() - 1]);
    law_trimmed_is_core(before, url, behind);
    law_white_space_around_url_is_ignored(before + url + behind);
    if is_dot_git_url(url, owner, repo) {
        law_dot_git_url_names_repo(prefix, owner, repo);
    } else {
        assert(!".git"@.is_suffix_of(body)) by {
            if ".git"@.is_suffix_of(body) {
                lemma_suffix_is_in_repo(owner, repo);
            }
        }
        law_plain_url_names_repo(prefix, owner, repo);
    }
}

proof fn lemma_suffix_is_in_repo(owner: Seq<char>, repo: Seq<char>)
    requires
        ".git"@.is_suffix_of(owner + seq!['/'] + repo),
    ensures
        ".git"@.is_suffix_of(repo),
{
    reveal_strlit(".git");
    let body = owner + seq!['/'] + repo;
    let n = body.len() as int;
    assert(body.subrange(n - 4, n) =~= ".git"@);
    if repo.len() < 4 {
        let k = owner.len() - (n - 4);
        assert(body.subrange(n - 4, n)[k] == '/');
        assert(".git"@[k] == '/');
    } else {
        assert(repo.subrange(repo.len() - 4, repo.len() as int) =~= body.subrange(n - 4, n));
    }
}

proof fn lemma_before_slash_parts(s: Seq<char>)
    ensures
        before_slash(s).len() <= s.len(),
        before_slash(s).len() < s.len() ==> s == before_slash(s) + seq!['/'] + s.skip(
            before_slash(s).len() as int + 1,
        ),
    decreases s.len(),
{
    if s.len() > 0 && s.first() != '/' {
        let rest = s.drop_first();
        let owner = before_slash(rest);
        lemma_before_slash_parts(rest);
        if owner.len() < rest.len() {
            assert(rest.skip(owner.len() as int + 1) =~= s.skip(owner.len() as int + 2));
            assert(s =~= seq![s.first()] + rest);
            assert(s =~= before_slash(s) + seq!['/'] + s.skip(before_slash(s).len() as int + 1));
        }
    } else if s.len() > 0 {
        assert(s =~= before_slash(s) + seq!['/'] + s.skip(before_slash(s).len() as int + 1));
    }
}

/// A repository is named only by a remote URL that is made of it in one of these ways.
pub proof fn law_named_repo_is_in_its_url(url: Seq<char>, owner: Seq<char>, repo: Seq<char>)
    requires
        named_repo(url) == Some((owner, repo)),
    ensures
        owner.len() > 0,
        !owner.contains('/'),
        repo.len() > 0,
        is_dot_git_url(trimmed(url), owner, repo) || is_plain_url(trimmed(url), owner, repo),
{
    let t = trimmed(url);
    let path = github_path(url)->0;
    let body = without_suffix(path, ".git"@);
    law_named_repo_is_well_formed(url);
    law_after_prefix("git@github.com:"@, path, t);
    law_after_prefix("https://github.com/"@, path, t);
    law_after_prefix("ssh://git@github.com/"@, path, t);
    lemma_before_slash_parts(body);
    assert(body == owner + seq!['/'] + repo);
    let prefix = if t == "git@github.com:"@ + path {
        "git@github.com:"@
    } else if t == "https://github.com/"@ + path {
        "https://github.com/"@
    } else {
        "ssh://git@github.com/"@
    };
    assert(t == prefix + path);
    if ".git"@.is_suffix_of(path) {
        assert(path =~= body + ".git"@);
        assert(t =~= prefix + owner + seq!['/'] + repo + ".git"@);
    } else {
        assert(path == body);
        assert(t =~= prefix + owner + seq!['/'] + repo);
        if ".git"@.is_suffix_of(repo) {
            let n = body.len() as int;
            reveal_strlit(".git");
            assert(body.subrange(n - 4, n) =~= repo.subrange(repo.len() - 4, repo.len() as int));
            assert(".git"@.is_suffix_of(body));
        }
    }
}

} // verus!
