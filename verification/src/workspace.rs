//! The git repositories and loose files that the touched paths belong to.

use vstd::prelude::*;
#[allow(unused_imports)]
use vstd::utf8::{decode_utf8, valid_utf8};

use crate::disk;
#[allow(unused_imports)]
use crate::disk::file_answer;
use crate::git::{git_string, origin_url_query, GitOutcome, GitQuery};
#[allow(unused_imports)]
use crate::git::{asks_origin_url, trimmed_output, GIT_COMMAND_TIMEOUT_SECS};
use crate::git_root::find_git_root;
#[allow(unused_imports)]
use crate::git_root::found_git_root;
use crate::github::{parse_github_repo, GithubRepo};
#[allow(unused_imports)]
use crate::github::named_repo;
use crate::path_list::PathList;
#[allow(unused_imports)]
use crate::path_list::{distinct_paths, first_of_each, holds_path, law_first_of_each, with_paths};
#[allow(unused_imports)]
use crate::paths::texts;
#[allow(unused_imports)]
use crate::workspace_laws::law_origin_repo_is_what_the_output_names;

verus! {

/// A git repository that the local agent touched.
#[derive(Clone, Debug, PartialEq, Eq)]
pub struct TouchedRepo {
    /// The root of the working tree, the directory that holds `.git`.
    pub git_root: String,
    /// `<owner>/<repo>` from the URL of the remote `origin`, where that can be told.
    pub repo_id: Option<GithubRepo>,
}

impl View for TouchedRepo {
    type V = (Seq<char>, Option<(Seq<char>, Seq<char>)>);

    open spec fn view(&self) -> (Seq<char>, Option<(Seq<char>, Seq<char>)>) {
        (
            self.git_root@,
            match self.repo_id {
                Some(r) => Some(r@),
                None => None,
            },
        )
    }
}

/// The git repositories and loose files that the local agent touched.
#[derive(Clone, Debug, PartialEq, Eq)]
pub struct TouchedWorkspace {
    pub repos: Vec<TouchedRepo>,
    /// Files outside any git repository.
    pub orphan_files: Vec<String>,
}

impl Default for TouchedWorkspace {
    fn default() -> (workspace: Self)
        ensures
            workspace.repos@.len() == 0,
            workspace.orphan_files@.len() == 0,
    {
        TouchedWorkspace { repos: Vec::new(), orphan_files: Vec::new() }
    }
}

/// Where a touched path belongs.
pub enum Place {
    /// In the working tree with this root.
    InRepo(String),
    /// Nowhere, and it is this file.
    LooseFile(String),
    /// Nowhere, and it is no file.
    Elsewhere,
}

/// The touched paths by where they belong.
pub struct GroupedPaths {
    /// The roots of the working trees, each once.
    pub git_roots: Vec<String>,
    /// The files outside any working tree.
    pub orphan_files: Vec<String>,
}

/// The roots of the working trees among `places`, in order.
pub open spec fn roots_among(places: Seq<Place>) -> Seq<Seq<char>>
    decreases places.len(),
{
    if places.len() == 0 {
        Seq::empty()
    } else {
        let before = roots_among(places.drop_last());
        match places.last() {
            Place::InRepo(root) => before.push(root@),
            _ => before,
        }
    }
}

/// The loose files among `places`, in order.
pub open spec fn loose_files_among(places: Seq<Place>) -> Seq<Seq<char>>
    decreases places.len(),
{
    if places.len() == 0 {
        Seq::empty()
    } else {
        let before = loose_files_among(places.drop_last());
        match places.last() {
            Place::LooseFile(file) => before.push(file@),
            _ => before,
        }
    }
}

/// `grouped` holds the roots among `places`, each once, and the loose files among them.
pub open spec fn groups(places: Seq<Place>, grouped: GroupedPaths) -> bool {
    &&& texts(grouped.git_roots@) == first_of_each(roots_among(places))
    &&& texts(grouped.orphan_files@) == loose_files_among(places)
}

/// The file system can have given the answers that put `path` at `place`.
pub open spec fn found_at(path: Seq<char>, place: Place) -> bool {
    match place {
        Place::InRepo(root) => found_git_root(path, Some(root@)),
        Place::LooseFile(file) => found_git_root(path, None) && file_answer(path, true) && file@
            == path,
        Place::Elsewhere => found_git_root(path, None) && file_answer(path, false),
    }
}

/// Looks up where `path` belongs.
pub fn locate(path: &str) -> (place: Place)
    ensures
        found_at(path@, place),
        match place {
            Place::InRepo(root) => found_git_root(path@, Some(root@)),
            Place::LooseFile(file) => {
                &&& found_git_root(path@, None)
                &&& file_answer(path@, true)
                &&& file@ == path@
            },
            Place::Elsewhere => found_git_root(path@, None) && file_answer(path@, false),
        },
{
    match find_git_root(path) {
        Some(root) => Place::InRepo(root),
        None => {
            if disk::is_file(path) {
                Place::LooseFile(path.to_owned())
            } else {
                Place::Elsewhere
            }
        },
    }
}

/// Gathers the roots and the loose files among `places`.
pub fn group_places(places: &Vec<Place>) -> (grouped: GroupedPaths)
    ensures
        groups(places@, grouped),
        distinct_paths(texts(grouped.git_roots@)),
{
    let mut git_roots = PathList::new();
    let mut orphan_files: Vec<String> = Vec::new();
    let mut i: usize = 0;
    assert(places@.take(0) =~= Seq::empty());
    assert(texts(orphan_files@) =~= Seq::empty());
    while i < places.len()
        invariant
            i <= places@.len(),
            git_roots.wf(),
            git_roots@ == first_of_each(roots_among(places@.take(i as int))),
            texts(orphan_files@) == loose_files_among(places@.take(i as int)),
        decreases places@.len() - i,
    {
        let ghost before = places@.take(i as int);
        let ghost files = texts(orphan_files@);
        assert(places@.take(i + 1).drop_last() =~= before);
        match &places[i] {
            Place::InRepo(root) => {
                assert(roots_among(before).push(root@).drop_last() =~= roots_among(before));
                git_roots.insert(root.clone());
            },
            Place::LooseFile(file) => {
                orphan_files.push(file.clone());
                assert(texts(orphan_files@) =~= files.push(file@));
            },
            Place::Elsewhere => {},
        }
        i = i + 1;
    }
    assert(places@.take(i as int) =~= places@);
    GroupedPaths { git_roots: git_roots.into_paths(), orphan_files }
}

/// Groups touched paths by the working tree that they belong to. A path outside any working tree
/// is kept where it is a file.
pub fn group_touched_paths(paths: &Vec<String>) -> (grouped: GroupedPaths)
    ensures
        exists|places: Seq<Place>|
            {
                &&& places.len() == paths@.len()
                &&& forall|i: int|
                    0 <= i < paths@.len() ==> found_at(paths@[i]@, #[trigger] places[i])
                &&& #[trigger] groups(places, grouped)
            },
        distinct_paths(texts(grouped.git_roots@)),
{
    let mut places: Vec<Place> = Vec::new();
    let mut i: usize = 0;
    while i < paths.len()
        invariant
            i <= paths@.len(),
            places@.len() == i,
            forall|j: int| 0 <= j < i ==> found_at(paths@[j]@, #[trigger] places@[j]),
        decreases paths@.len() - i,
    {
        places.push(locate(paths[i].as_str()));
        i = i + 1;
    }
    group_places(&places)
}

/// The directories that a list of invocations runs in, in order.
pub open spec fn query_dirs(queries: Seq<GitQuery>) -> Seq<Seq<char>> {
    queries.map_values(|q: GitQuery| q.dir@)
}

/// What is asked of git about the grouped working trees: for each root, in order, the URL of the
/// remote `origin`.
pub fn origin_url_queries(grouped: &GroupedPaths) -> (queries: Vec<GitQuery>)
    ensures
        queries@.len() == grouped.git_roots@.len(),
        forall|i: int|
            0 <= i < queries@.len() ==> {
                &&& texts((#[trigger] queries@[i]).args@) == seq![
                    "remote"@,
                    "get-url"@,
                    "origin"@,
                ]
                &&& queries@[i].dir@ == grouped.git_roots@[i]@
                &&& queries@[i].timeout_secs == GIT_COMMAND_TIMEOUT_SECS
            },
        query_dirs(queries@) == texts(grouped.git_roots@),
{
    let mut queries: Vec<GitQuery> = Vec::new();
    let mut i: usize = 0;
    while i < grouped.git_roots.len()
        invariant
            i <= grouped.git_roots@.len(),
            queries@.len() == i,
            forall|j: int|
                0 <= j < i ==> asks_origin_url(#[trigger] queries@[j], grouped.git_roots@[j]@),
        decreases grouped.git_roots@.len() - i,
    {
        queries.push(origin_url_query(grouped.git_roots[i].as_str()));
        i = i + 1;
    }
    assert forall|j: int| 0 <= j < queries@.len() implies (#[trigger] queries@[j]).dir@
        == grouped.git_roots@[j]@ by {
        assert(asks_origin_url(queries@[j], grouped.git_roots@[j]@));
    }
    assert(query_dirs(queries@) =~= texts(grouped.git_roots@));
    queries
}

/// git is asked once about each working tree: no two questions are about the same one, and there
/// is one about every working tree that a path was found in.
pub proof fn law_one_query_per_working_tree(
    places: Seq<Place>,
    grouped: GroupedPaths,
    queries: Seq<GitQuery>,
)
    requires
        groups(places, grouped),
        query_dirs(queries) == texts(grouped.git_roots@),
    ensures
        distinct_paths(query_dirs(queries)),
        forall|i: int|
            0 <= i < places.len() ==> (#[trigger] places[i] matches Place::InRepo(root)
                ==> holds_path(query_dirs(queries), root@)),
{
    law_grouping_keeps_every_place(places, grouped);
}

/// The repository that the URL of the remote `origin` names, as git printed it.
pub open spec fn origin_repo(outcome: GitOutcome) -> Option<(Seq<char>, Seq<char>)> {
    match trimmed_output(outcome) {
        Some(url) => named_repo(url),
        None => None,
    }
}

/// What is kept of a repository, given how the question for its remote URL ended. Where that
/// failed or the remote is not on GitHub, `repo_id` stays `None`.
pub fn gather_repo_metadata(git_root: String, outcome: GitOutcome) -> (repo: TouchedRepo)
    ensures
        repo@ == (git_root@, origin_repo(outcome)),
        repo.git_root@ == git_root@,
        repo.repo_id matches Some(id) ==> {
            &&& outcome matches GitOutcome::Finished { success, stdout }
            &&& success
            &&& valid_utf8(stdout@)
            &&& named_repo(decode_utf8(stdout@)) == Some((id.owner@, id.repo@))
        },
        repo.repo_id is None ==> (outcome matches GitOutcome::Finished { success, stdout }
            ==> !success || !valid_utf8(stdout@) || named_repo(decode_utf8(stdout@)) is None),
{
    proof {
        law_origin_repo_is_what_the_output_names(outcome);
    }
    let repo_id = match git_string(outcome) {
        Some(url) => parse_github_repo(url.as_str()),
        None => None,
    };
    TouchedRepo { git_root, repo_id }
}

/// The touched workspace, given for each root how the question for its remote URL ended.
pub fn touched_workspace(grouped: GroupedPaths, outcomes: Vec<GitOutcome>) -> (workspace:
    TouchedWorkspace)
    requires
        outcomes@.len() == grouped.git_roots@.len(),
    ensures
        workspace.repos@.len() == grouped.git_roots@.len(),
        forall|i: int|
            0 <= i < workspace.repos@.len() ==> (#[trigger] workspace.repos@[i])@ == (
                grouped.git_roots@[i]@,
                origin_repo(outcomes@[i]),
            ),
        forall|i: int|
            0 <= i < workspace.repos@.len() ==> (#[trigger] workspace.repos@[i]).git_root@
                == grouped.git_roots@[i]@,
        forall|i: int|
            0 <= i < workspace.repos@.len() ==> ((#[trigger] workspace.repos@[i]).repo_id is Some
                <==> origin_repo(outcomes@[i]) is Some),
        forall|i: int|
            0 <= i < workspace.repos@.len() && (#[trigger] workspace.repos@[i]).repo_id is Some
                ==> origin_repo(outcomes@[i]) == Some(
                (workspace.repos@[i].repo_id->0.owner@, workspace.repos@[i].repo_id->0.repo@),
            ),
        workspace.orphan_files == grouped.orphan_files,
{
    let mut repos: Vec<TouchedRepo> = Vec::new();
    let n: usize = outcomes.len();
    let mut i: usize = 0;
    for outcome in it: outcomes
        invariant
            n == outcomes@.len(),
            it.seq() == outcomes@,
            outcomes@.len() == grouped.git_roots@.len(),
            i == it.index(),
            repos@.len() == i,
            forall|j: int|
                0 <= j < i ==> (#[trigger] repos@[j])@ == (
                    grouped.git_roots@[j]@,
                    origin_repo(outcomes@[j]),
                ),
    {
        repos.push(gather_repo_metadata(grouped.git_roots[i].clone(), outcome));
        i = i + 1;
    }
    TouchedWorkspace { repos, orphan_files: grouped.orphan_files }
}

/// Grouping keeps every working tree, each once, and every loose file, and adds nothing else.
pub proof fn law_grouping_keeps_every_place(places: Seq<Place>, grouped: GroupedPaths)
    requires
        groups(places, grouped),
    ensures
        distinct_paths(texts(grouped.git_roots@)),
        forall|i: int|
            0 <= i < places.len() ==> match #[trigger] places[i] {
                Place::InRepo(root) => holds_path(texts(grouped.git_roots@), root@),
                Place::LooseFile(file) => texts(grouped.orphan_files@).contains(file@),
                Place::Elsewhere => true,
            },
        grouped.git_roots@.len() + grouped.orphan_files@.len() <= places.len(),
{
    let roots = roots_among(places);
    law_first_of_each(roots);
    lemma_group_sizes(places);
    lemma_first_of_each_size(roots);
    assert(grouped.git_roots@.len() == texts(grouped.git_roots@).len());
    assert(grouped.orphan_files@.len() == texts(grouped.orphan_files@).len());
    assert forall|i: int| 0 <= i < places.len() implies match #[trigger] places[i] {
        Place::InRepo(root) => holds_path(texts(grouped.git_roots@), root@),
        Place::LooseFile(file) => texts(grouped.orphan_files@).contains(file@),
        Place::Elsewhere => true,
    } by {
        lemma_place_is_kept(places, i);
        if let Place::InRepo(root) = places[i] {
            let k = choose|k: int| 0 <= k < roots.len() && roots[k] == root@;
            assert(holds_path(first_of_each(roots), roots[k]));
        }
    }
}

proof fn lemma_first_of_each_size(paths: Seq<Seq<char>>)
    ensures
        first_of_each(paths).len() <= paths.len(),
    decreases paths.len(),
{
    if paths.len() > 0 {
        lemma_first_of_each_size(paths.drop_last());
    }
}

proof fn lemma_group_sizes(places: Seq<Place>)
    ensures
        roots_among(places).len() + loose_files_among(places).len() <= places.len(),
    decreases places.len(),
{
    if places.len() > 0 {
        lemma_group_sizes(places.drop_last());
    }
}

proof fn lemma_place_is_kept(places: Seq<Place>, i: int)
    requires
        0 <= i < places.len(),
    ensures
        match places[i] {
            Place::InRepo(root) => roots_among(places).contains(root@),
            Place::LooseFile(file) => loose_files_among(places).contains(file@),
            Place::Elsewhere => true,
        },
    decreases places.len(),
{
    let front = places.drop_last();
    if i < front.len() {
        assert(front[i] == places[i]);
        lemma_place_is_kept(front, i);
        match places[i] {
            Place::InRepo(root) => {
                let k = choose|k: int|
                    0 <= k < roots_among(front).len() && roots_among(front)[k] == root@;
                assert(roots_among(places)[k] == root@);
            },
            Place::LooseFile(file) => {
                let k = choose|k: int|
                    0 <= k < loose_files_among(front).len() && loose_files_among(front)[k]
                        == file@;
                assert(loose_files_among(places)[k] == file@);
            },
            Place::Elsewhere => {},
        }
    } else {
        match places[i] {
            Place::InRepo(root) => {
                assert(roots_among(places)[roots_among(front).len() as int] == root@);
            },
            Place::LooseFile(file) => {
                assert(loose_files_among(places)[loose_files_among(front).len() as int] == file@);
            },
            Place::Elsewhere => {},
        }
    }
}

} // verus!
