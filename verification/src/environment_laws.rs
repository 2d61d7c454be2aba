//! What holds of the choice of an environment, in terms of the fields of what it is given.

use vstd::prelude::*;

#[allow(unused_imports)]
use crate::environments::{
    github_ids, holds_repo, is_best, is_recency_order, law_best_exists, overlap, precedes, recency,
    CloudAmbientAgentEnvironment, RepoId,
};
#[allow(unused_imports)]
use crate::github::GithubRepo;
#[allow(unused_imports)]
use crate::workspace::TouchedRepo;

verus! {

/// Some repository of `env` has this owner and this name.
pub open spec fn lists(
    env: CloudAmbientAgentEnvironment,
    owner: Seq<char>,
    repo: Seq<char>,
) -> bool {
    exists|k: int|
        0 <= k < env.github_repos@.len() && (#[trigger] env.github_repos@[k]).owner@ == owner
            && env.github_repos@[k].repo@ == repo
}

/// The touched repository is on GitHub, and `env` lists it.
pub open spec fn is_covered(repo: TouchedRepo, env: CloudAmbientAgentEnvironment) -> bool {
    &&& repo.repo_id is Some
    &&& lists(env, repo.repo_id->0.owner@, repo.repo_id->0.repo@)
}

/// How many of the touched repositories `env` lists.
pub open spec fn count_covered(
    repos: Seq<TouchedRepo>,
    env: CloudAmbientAgentEnvironment,
) -> nat {
    repos.filter(|r: TouchedRepo| is_covered(r, env)).len()
}

/// Environment `j` lists the touched repository `k`.
pub open spec fn covers(
    envs: Seq<CloudAmbientAgentEnvironment>,
    repos: Seq<TouchedRepo>,
    j: int,
    k: int,
) -> bool {
    &&& 0 <= j < envs.len()
    &&& 0 <= k < repos.len()
    &&& is_covered(repos[k], envs[j])
}

/// `a` was used, and `b` never or earlier.
pub open spec fn used_later(
    a: CloudAmbientAgentEnvironment,
    b: CloudAmbientAgentEnvironment,
) -> bool {
    match (a.last_used, b.last_used) {
        (Some(s), Some(t)) => s > t,
        (Some(_), None) => true,
        (None, _) => false,
    }
}

/// Every touched repository that is on GitHub counts, whatever stands before or behind it, in
/// the order in which they were touched, and nothing else counts.
pub proof fn law_every_github_repo_counts(repos: Seq<TouchedRepo>)
    ensures
        github_ids(repos) == repos.filter(|r: TouchedRepo| r.repo_id is Some).map_values(
            |r: TouchedRepo| (r.repo_id->0.owner@, r.repo_id->0.repo@),
        ),
        forall|k: int|
            0 <= k < repos.len() && (#[trigger] repos[k]).repo_id is Some ==> github_ids(
                repos,
            ).contains((repos[k].repo_id->0.owner@, repos[k].repo_id->0.repo@)),
    decreases repos.len(),
{
    reveal(Seq::filter);
    let is_github = |r: TouchedRepo| r.repo_id is Some;
    let id_of = |r: TouchedRepo| (r.repo_id->0.owner@, r.repo_id->0.repo@);
    if repos.len() > 0 {
        let front = repos.drop_last();
        let before = github_ids(front);
        law_every_github_repo_counts(front);
        assert(github_ids(repos) =~= repos.filter(is_github).map_values(id_of));
        assert forall|k: int| 0 <= k < repos.len() && (#[trigger] repos[k]).repo_id is Some implies
            github_ids(repos).contains(id_of(repos[k])) by {
            if k < front.len() {
                assert(front[k] == repos[k]);
                assert(before.contains(id_of(front[k])));
                let m = choose|m: int| 0 <= m < before.len() && before[m] == id_of(front[k]);
                assert(github_ids(repos)[m] == before[m]);
            } else {
                assert(github_ids(repos)[before.len() as int] == id_of(repos[k]));
            }
        }
    } else {
        assert(github_ids(repos) =~= repos.filter(is_github).map_values(id_of));
    }
}

/// A repository counts as often as it was touched.
pub proof fn law_github_repo_counts_each_time(
    repos: Seq<TouchedRepo>,
    owner: Seq<char>,
    repo: Seq<char>,
)
    ensures
        github_ids(repos).filter(|id: RepoId| id == (owner, repo)).len() == repos.filter(
            |r: TouchedRepo|
                r.repo_id is Some && r.repo_id->0.owner@ == owner && r.repo_id->0.repo@ == repo,
        ).len(),
    decreases repos.len(),
{
    reveal(Seq::filter);
    if repos.len() > 0 {
        let before = github_ids(repos.drop_last());
        law_github_repo_counts_each_time(repos.drop_last(), owner, repo);
        if let Some(id) = repos.last().repo_id {
            assert(before.push(id@).drop_last() =~= before);
        }
    }
}

/// The overlap with an environment is the number of touched repositories that are on GitHub and
/// that it lists by owner and name.
pub proof fn law_overlap_counts_covered_repos(
    repos: Seq<TouchedRepo>,
    env: CloudAmbientAgentEnvironment,
)
    ensures
        overlap(github_ids(repos), env) == count_covered(repos, env),
    decreases repos.len(),
{
    reveal(Seq::filter);
    if repos.len() > 0 {
        let before = github_ids(repos.drop_last());
        law_overlap_counts_covered_repos(repos.drop_last(), env);
        if let Some(id) = repos.last().repo_id {
            assert(before.push(id@).drop_last() =~= before);
            lemma_holds_is_lists(env, id);
        }
    }
}

proof fn lemma_holds_is_lists(env: CloudAmbientAgentEnvironment, id: GithubRepo)
    ensures
        holds_repo(env, id@) == lists(env, id.owner@, id.repo@),
{
    if holds_repo(env, id@) {
        let k = choose|k: int|
            0 <= k < env.github_repos@.len() && (#[trigger] env.github_repos@[k])@ == id@;
        assert(env.github_repos@[k].owner@ == id.owner@);
    }
    if lists(env, id.owner@, id.repo@) {
        let k = choose|k: int|
            0 <= k < env.github_repos@.len() && (#[trigger] env.github_repos@[k]).owner@
                == id.owner@ && env.github_repos@[k].repo@ == id.repo@;
        assert(env.github_repos@[k]@ == id@);
    }
}

proof fn lemma_some_covered(repos: Seq<TouchedRepo>, env: CloudAmbientAgentEnvironment)
    ensures
        count_covered(repos, env) > 0 <==> exists|k: int|
            0 <= k < repos.len() && is_covered(#[trigger] repos[k], env),
    decreases repos.len(),
{
    reveal(Seq::filter);
    if repos.len() > 0 {
        let front = repos.drop_last();
        lemma_some_covered(front, env);
        if exists|k: int| 0 <= k < repos.len() && is_covered(#[trigger] repos[k], env) {
            let k = choose|k: int| 0 <= k < repos.len() && is_covered(#[trigger] repos[k], env);
            if k < front.len() {
                assert(front[k] == repos[k]);
            }
        }
        if count_covered(repos, env) > 0 {
            if is_covered(repos.last(), env) {
                assert(repos[repos.len() - 1] == repos.last());
            } else {
                let k = choose|k: int| 0 <= k < front.len() && is_covered(#[trigger] front[k], env);
                assert(repos[k] == front[k]);
            }
        }
    }
}

/// An environment overlaps with the touched repositories exactly where it lists one of them.
pub proof fn law_overlap_means_a_covered_repo(
    repos: Seq<TouchedRepo>,
    env: CloudAmbientAgentEnvironment,
)
    ensures
        overlap(github_ids(repos), env) > 0 <==> exists|k: int|
            0 <= k < repos.len() && is_covered(#[trigger] repos[k], env),
{
    law_overlap_counts_covered_repos(repos, env);
    lemma_some_covered(repos, env);
}

/// Where any environment lists any touched repository there is a best environment.
pub proof fn law_covered_repo_gives_a_best(
    envs: Seq<CloudAmbientAgentEnvironment>,
    repos: Seq<TouchedRepo>,
    j: int,
    k: int,
)
    requires
        covers(envs, repos, j, k),
    ensures
        overlap(github_ids(repos), envs[j]) > 0,
        exists|i: int| is_best(envs, github_ids(repos), i),
{
    law_overlap_means_a_covered_repo(repos, envs[j]);
    law_best_exists(envs, github_ids(repos), j);
}

/// Where no environment overlaps with the touched repositories none lists any of them; where one
/// does, it lists one of them.
pub proof fn law_overlaps_by_fields(
    envs: Seq<CloudAmbientAgentEnvironment>,
    repos: Seq<TouchedRepo>,
)
    ensures
        (exists|j: int| 0 <= j < envs.len() && overlap(github_ids(repos), #[trigger] envs[j]) > 0)
            <==> exists|j: int, k: int| #[trigger] covers(envs, repos, j, k),
{
    if exists|j: int| 0 <= j < envs.len() && overlap(github_ids(repos), #[trigger] envs[j]) > 0 {
        let j = choose|j: int|
            0 <= j < envs.len() && overlap(github_ids(repos), #[trigger] envs[j]) > 0;
        law_overlap_means_a_covered_repo(repos, envs[j]);
        let k = choose|k: int| 0 <= k < repos.len() && is_covered(#[trigger] repos[k], envs[j]);
        assert(covers(envs, repos, j, k));
    }
    if exists|j: int, k: int| #[trigger] covers(envs, repos, j, k) {
        let (j, k): (int, int) = choose|j: int, k: int| #[trigger] covers(envs, repos, j, k);
        law_covered_repo_gives_a_best(envs, repos, j, k);
    }
}

/// The best environment lists at least one touched repository. Every other environment lists
/// fewer; or as many and was used earlier or never; or as many, was used at the same time, and
/// stands behind it.
pub proof fn law_best_by_fields(
    envs: Seq<CloudAmbientAgentEnvironment>,
    repos: Seq<TouchedRepo>,
    i: int,
    j: int,
)
    requires
        is_best(envs, github_ids(repos), i),
        0 <= j < envs.len(),
        j != i,
    ensures
        0 <= i < envs.len(),
        count_covered(repos, envs[i]) > 0,
        count_covered(repos, envs[i]) >= count_covered(repos, envs[j]),
        count_covered(repos, envs[i]) == count_covered(repos, envs[j]) ==> {
            ||| used_later(envs[i], envs[j])
            ||| envs[i].last_used == envs[j].last_used && i < j
        },
{
    law_overlap_counts_covered_repos(repos, envs[i]);
    law_overlap_counts_covered_repos(repos, envs[j]);
}

/// An environment that lists at least one touched repository, and that every other environment
/// falls behind in one of these ways, is the best.
pub proof fn law_best_from_fields(
    envs: Seq<CloudAmbientAgentEnvironment>,
    repos: Seq<TouchedRepo>,
    i: int,
)
    requires
        0 <= i < envs.len(),
        count_covered(repos, envs[i]) > 0,
        forall|j: int|
            0 <= j < envs.len() && j != i ==> {
                ||| count_covered(repos, envs[i]) > count_covered(repos, #[trigger] envs[j])
                ||| count_covered(repos, envs[i]) == count_covered(repos, envs[j]) && (used_later(
                    envs[i],
                    envs[j],
                ) || envs[i].last_used == envs[j].last_used && i < j)
            },
    ensures
        is_best(envs, github_ids(repos), i),
{
    assert forall|j: int| 0 <= j < envs.len() implies overlap(github_ids(repos), #[trigger] envs[j])
        == count_covered(repos, envs[j]) by {
        law_overlap_counts_covered_repos(repos, envs[j]);
    }
}

/// Sorting by recency moves every environment to exactly one place. An environment never stands
/// behind one that was used earlier or never, and two that were used at the same time, or both
/// never, keep their order.
pub proof fn law_recency_order_by_fields(
    before: Seq<CloudAmbientAgentEnvironment>,
    after: Seq<CloudAmbientAgentEnvironment>,
    order: Seq<int>,
    a: int,
    b: int,
)
    requires
        is_recency_order(before, after, order),
        0 <= a < b < after.len(),
    ensures
        after.len() == before.len() == order.len(),
        0 <= order[a] < before.len(),
        0 <= order[b] < before.len(),
        order[a] != order[b],
        after[a] == before[order[a]],
        after[b] == before[order[b]],
        !used_later(after[b], after[a]),
        after[a].last_used == after[b].last_used ==> order[a] < order[b],
        forall|k: int| 0 <= k < after.len() ==> #[trigger] after[k] == before[order[k]],
        forall|i: int| 0 <= i < before.len() ==> #[trigger] order.contains(i),
{
    assert(precedes(before, order[a], order[b]));
}

/// What was used later is more recent, and what was never used is less recent than all that was.
pub proof fn law_recency_by_fields(
    a: CloudAmbientAgentEnvironment,
    b: CloudAmbientAgentEnvironment,
)
    ensures
        recency(a) > recency(b) <==> used_later(a, b),
        recency(a) == recency(b) <==> a.last_used == b.last_used,
{
}

} // verus!
