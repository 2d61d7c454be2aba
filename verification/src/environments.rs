//! The cloud environments, and the one that fits a touched workspace best.

use vstd::prelude::*;

#[allow(unused_imports)]
use crate::environment_laws::{covers, law_overlaps_by_fields};
use crate::github::GithubRepo;
use crate::workspace::{TouchedRepo, TouchedWorkspace};

verus! {

/// The identity of an object that is kept in sync with the server.
#[derive(Clone, Debug, PartialEq, Eq)]
pub struct SyncId {
    pub uid: String,
}

/// An environment that a cloud agent can run in.
pub struct CloudAmbientAgentEnvironment {
    pub id: SyncId,
    /// The repositories that the environment holds.
    pub github_repos: Vec<GithubRepo>,
    /// When it was last used, in any unit that grows with time; `None` where it never was.
    pub last_used: Option<u64>,
}

/// A repository as `<owner>` and `<repo>`.
pub type RepoId = (Seq<char>, Seq<char>);

/// How recently an environment was used: later is more, and never is least.
pub open spec fn recency(env: CloudAmbientAgentEnvironment) -> int {
    match env.last_used {
        Some(t) => t as int,
        None => -1,
    }
}

/// Environment `i` was used more recently than `j`, or as recently and stands before it.
pub open spec fn precedes(envs: Seq<CloudAmbientAgentEnvironment>, i: int, j: int) -> bool {
    ||| recency(envs[i]) > recency(envs[j])
    ||| recency(envs[i]) == recency(envs[j]) && i < j
}

/// `after` holds the environments of `before`, the most recently used first, those used equally
/// recently in the order that they had. `order` says which of `before` stands at each place.
pub open spec fn is_recency_order(
    before: Seq<CloudAmbientAgentEnvironment>,
    after: Seq<CloudAmbientAgentEnvironment>,
    order: Seq<int>,
) -> bool {
    &&& after.len() == before.len()
    &&& order.len() == before.len()
    &&& forall|k: int|
        0 <= k < order.len() ==> 0 <= #[trigger] order[k] < before.len() && after[k]
            == before[order[k]]
    &&& forall|i: int| 0 <= i < before.len() ==> #[trigger] order.contains(i)
    &&& forall|a: int, b: int|
        0 <= a < b < order.len() ==> precedes(before, #[trigger] order[a], #[trigger] order[b])
}

/// Whether `a` was used more recently than `b`.
fn is_more_recent(
    a: &CloudAmbientAgentEnvironment,
    b: &CloudAmbientAgentEnvironment,
) -> (more: bool)
    ensures
        more == (recency(*a) > recency(*b)),
{
    match (a.last_used, b.last_used) {
        (Some(s), Some(t)) => s > t,
        (Some(_), None) => true,
        (None, _) => false,
    }
}

/// The partly sorted state: the first `i` places hold the first `i` environments in order, the
/// others are where they were.
spec fn is_sorted_upto(
    before: Seq<CloudAmbientAgentEnvironment>,
    now: Seq<CloudAmbientAgentEnvironment>,
    order: Seq<int>,
    i: int,
) -> bool {
    &&& 0 <= i <= before.len()
    &&& now.len() == before.len()
    &&& order.len() == before.len()
    &&& forall|k: int|
        0 <= k < order.len() ==> 0 <= #[trigger] order[k] < before.len() && now[k]
            == before[order[k]]
    &&& forall|k: int| 0 <= k < i ==> #[trigger] order[k] < i
    &&& forall|k: int| i <= k < order.len() ==> #[trigger] order[k] == k
    &&& forall|x: int| 0 <= x < before.len() ==> #[trigger] order.contains(x)
    &&& forall|a: int, b: int|
        0 <= a < b < i ==> precedes(before, #[trigger] order[a], #[trigger] order[b])
}

proof fn lemma_insert_keeps_order(
    before: Seq<CloudAmbientAgentEnvironment>,
    now: Seq<CloudAmbientAgentEnvironment>,
    order: Seq<int>,
    i: int,
    j: int,
)
    requires
        is_sorted_upto(before, now, order, i),
        0 <= j <= i < before.len(),
        forall|k: int| j <= k < i ==> recency(#[trigger] now[k]) < recency(now[i]),
        j > 0 ==> recency(now[j - 1]) >= recency(now[i]),
    ensures
        is_sorted_upto(
            before,
            now.remove(i).insert(j, now[i]),
            order.remove(i).insert(j, i),
            i + 1,
        ),
{
    let next = order.remove(i).insert(j, i);
    let moved = now.remove(i).insert(j, now[i]);
    assert(order[i] == i);
    assert forall|k: int| 0 <= k < next.len() implies next[k] == (if k < j {
        order[k]
    } else if k == j {
        i
    } else if k <= i {
        order[k - 1]
    } else {
        order[k]
    }) by {}
    assert forall|k: int| 0 <= k < next.len() implies 0 <= #[trigger] next[k] < before.len()
        && moved[k] == before[next[k]] by {
        if k < j {
            assert(order[k] == next[k]);
        } else if k > j && k <= i {
            assert(order[k - 1] == next[k]);
        } else if k > i {
            assert(order[k] == next[k]);
        }
    }
    assert forall|k: int| 0 <= k < i + 1 implies #[trigger] next[k] < i + 1 by {
        if k < j {
            assert(order[k] == next[k]);
        } else if k > j {
            assert(order[k - 1] == next[k]);
        }
    }
    assert forall|k: int| i + 1 <= k < next.len() implies #[trigger] next[k] == k by {
        assert(order[k] == next[k]);
    }
    assert forall|x: int| 0 <= x < before.len() implies #[trigger] next.contains(x) by {
        assert(order.contains(x));
        let k = choose|k: int| 0 <= k < order.len() && order[k] == x;
        if k < j {
            assert(next[k] == x);
        } else if k < i {
            assert(next[k + 1] == x);
        } else if k == i {
            assert(next[j] == x);
        } else {
            assert(next[k] == x);
        }
    }
    assert forall|a: int, b: int| 0 <= a < b < i + 1 implies precedes(
        before,
        #[trigger] next[a],
        #[trigger] next[b],
    ) by {
        let oa = if a < j {
            a
        } else {
            a - 1
        };
        let ob = if b < j {
            b
        } else {
            b - 1
        };
        if a != j && b != j {
            assert(next[a] == order[oa]);
            assert(next[b] == order[ob]);
        } else if b == j {
            assert(next[a] == order[a]);
            assert(now[a] == before[order[a]]);
            if a < j - 1 {
                assert(precedes(before, order[a], order[j - 1]));
            }
            assert(now[j - 1] == before[order[j - 1]]);
        } else {
            assert(next[b] == order[b - 1]);
            assert(now[b - 1] == before[order[b - 1]]);
            assert(recency(now[b - 1]) < recency(now[i]));
        }
    }
}

/// Sorts environments by how recently they were used, the most recent first. Those used equally
/// recently keep their order.
pub fn sort_environments_by_recency(envs: &mut Vec<CloudAmbientAgentEnvironment>)
    ensures
        exists|order: Seq<int>| is_recency_order(old(envs)@, final(envs)@, order),
{
    let ghost before = envs@;
    let ghost mut order = Seq::new(before.len(), |k: int| k);
    let n: usize = envs.len();
    let mut i: usize = 0;
    assert forall|x: int| 0 <= x < before.len() implies #[trigger] order.contains(x) by {
        assert(order[x] == x);
    }
    while i < n
        invariant
            n == before.len(),
            is_sorted_upto(before, envs@, order, i as int),
        decreases n - i,
    {
        let mut j: usize = i;
        while j > 0 && is_more_recent(&envs[i], &envs[j - 1])
            invariant
                j <= i < n,
                n == envs@.len(),
                forall|k: int| j <= k < i ==> recency(#[trigger] envs@[k]) < recency(envs@[i as int]),
            decreases j,
        {
            j = j - 1;
        }
        proof {
            lemma_insert_keeps_order(before, envs@, order, i as int, j as int);
            order = order.remove(i as int).insert(j as int, i as int);
        }
        let env = envs.remove(i);
        envs.insert(j, env);
        i = i + 1;
    }
    assert(is_recency_order(before, envs@, order));
}

/// Two ways of sorting the same environments by recency give the same list.
pub proof fn law_recency_order_is_unique(
    before: Seq<CloudAmbientAgentEnvironment>,
    first: Seq<CloudAmbientAgentEnvironment>,
    first_order: Seq<int>,
    second: Seq<CloudAmbientAgentEnvironment>,
    second_order: Seq<int>,
)
    requires
        is_recency_order(before, first, first_order),
        is_recency_order(before, second, second_order),
    ensures
        first == second,
        first_order == second_order,
{
    lemma_same_order(before, first, first_order, second, second_order, before.len());
    assert(first_order =~= second_order);
    assert forall|k: int| 0 <= k < first.len() implies first[k] == second[k] by {
        assert(first[k] == before[first_order[k]]);
        assert(second[k] == before[second_order[k]]);
    }
    assert(first =~= second);
}

proof fn lemma_same_order(
    before: Seq<CloudAmbientAgentEnvironment>,
    first: Seq<CloudAmbientAgentEnvironment>,
    first_order: Seq<int>,
    second: Seq<CloudAmbientAgentEnvironment>,
    second_order: Seq<int>,
    n: nat,
)
    requires
        is_recency_order(before, first, first_order),
        is_recency_order(before, second, second_order),
        n <= before.len(),
    ensures
        forall|k: int| 0 <= k < n ==> first_order[k] == second_order[k],
    decreases n,
{
    if n > 0 {
        let k = n - 1;
        lemma_same_order(before, first, first_order, second, second_order, k as nat);
        let x = first_order[k];
        let y = second_order[k];
        assert(second_order.contains(x));
        assert(first_order.contains(y));
        let m = choose|m: int| 0 <= m < second_order.len() && second_order[m] == x;
        let l = choose|l: int| 0 <= l < first_order.len() && first_order[l] == y;
        if m < k {
            assert(first_order[m] == second_order[m]);
            assert(precedes(before, first_order[m], first_order[k]));
        }
        if l < k {
            assert(first_order[l] == second_order[l]);
            assert(precedes(before, second_order[l], second_order[k]));
        }
        if m > k {
            assert(precedes(before, second_order[k], second_order[m]));
        }
        if l > k {
            assert(precedes(before, first_order[k], first_order[l]));
        }
    }
}

/// The repositories on GitHub among touched ones, in order, each as often as it was touched.
pub open spec fn github_ids(repos: Seq<TouchedRepo>) -> Seq<RepoId>
    decreases repos.len(),
{
    if repos.len() == 0 {
        Seq::empty()
    } else {
        let before = github_ids(repos.drop_last());
        match repos.last().repo_id {
            Some(id) => before.push(id@),
            None => before,
        }
    }
}

/// Whether an environment holds a repository.
pub open spec fn holds_repo(env: CloudAmbientAgentEnvironment, id: RepoId) -> bool {
    exists|k: int| 0 <= k < env.github_repos@.len() && (#[trigger] env.github_repos@[k])@ == id
}

/// How many of the touched repositories an environment holds.
pub open spec fn overlap(ids: Seq<RepoId>, env: CloudAmbientAgentEnvironment) -> nat
    decreases ids.len(),
{
    if ids.len() == 0 {
        0
    } else {
        overlap(ids.drop_last(), env) + if holds_repo(env, ids.last()) {
            1nat
        } else {
            0nat
        }
    }
}

/// Environment `i` holds some touched repository, and it holds more of them than any other one,
/// or as many and precedes the other by recency.
pub open spec fn is_best(
    envs: Seq<CloudAmbientAgentEnvironment>,
    ids: Seq<RepoId>,
    i: int,
) -> bool {
    &&& 0 <= i < envs.len()
    &&& overlap(ids, envs[i]) > 0
    &&& forall|j: int|
        0 <= j < envs.len() && j != i ==> {
            ||| overlap(ids, envs[i]) > overlap(ids, #[trigger] envs[j])
            ||| overlap(ids, envs[i]) == overlap(ids, envs[j]) && precedes(envs, i, j)
        }
}

/// Whether `env` holds the repository `id`.
fn env_holds_repo(env: &CloudAmbientAgentEnvironment, id: &GithubRepo) -> (holds: bool)
    ensures
        holds == holds_repo(*env, id@),
{
    let mut k: usize = 0;
    while k < env.github_repos.len()
        invariant
            k <= env.github_repos@.len(),
            forall|j: int| 0 <= j < k ==> (#[trigger] env.github_repos@[j])@ != id@,
        decreases env.github_repos@.len() - k,
    {
        if env.github_repos[k].same_repo(id) {
            return true;
        }
        k = k + 1;
    }
    false
}

/// How many of the repositories `repos` that are on GitHub `env` holds.
fn count_overlap(repos: &Vec<TouchedRepo>, env: &CloudAmbientAgentEnvironment) -> (count: usize)
    ensures
        count == overlap(github_ids(repos@), *env),
{
    let mut count: usize = 0;
    let mut i: usize = 0;
    assert(repos@.take(0) =~= Seq::empty());
    while i < repos.len()
        invariant
            i <= repos@.len(),
            count <= i,
            count == overlap(github_ids(repos@.take(i as int)), *env),
        decreases repos@.len() - i,
    {
        let ghost before = github_ids(repos@.take(i as int));
        assert(repos@.take(i + 1).drop_last() =~= repos@.take(i as int));
        if let Some(id) = &repos[i].repo_id {
            assert(before.push(id@).drop_last() =~= before);
            if env_holds_repo(env, id) {
                count = count + 1;
            }
        }
        i = i + 1;
    }
    assert(repos@.take(i as int) =~= repos@);
    count
}

/// Picks the environment that holds the most of the touched repositories, of several such the
/// most recently used. Returns `None` where no environment holds any of them.
pub fn pick_handoff_overlap_env(
    workspace: &TouchedWorkspace,
    envs: Vec<CloudAmbientAgentEnvironment>,
) -> (picked: Option<SyncId>)
    ensures
        match picked {
            Some(id) => exists|i: int| #[trigger]
                is_best(envs@, github_ids(workspace.repos@), i) && envs@[i].id == id,
            None => forall|i: int|
                0 <= i < envs@.len() ==> overlap(
                    github_ids(workspace.repos@),
                    #[trigger] envs@[i],
                ) == 0,
        },
        picked is Some <==> exists|j: int, k: int| #[trigger]
            covers(envs@, workspace.repos@, j, k),
{
    let ghost given = envs@;
    let ghost ids = github_ids(workspace.repos@);
    proof {
        law_overlaps_by_fields(given, workspace.repos@);
    }
    let mut sorted = envs;
    sort_environments_by_recency(&mut sorted);
    let ghost order = choose|order: Seq<int>| is_recency_order(given, sorted@, order);
    let mut best: Option<(usize, usize)> = None;
    let mut k: usize = 0;
    while k < sorted.len()
        invariant
            k <= sorted@.len(),
            ids == github_ids(workspace.repos@),
            match best {
                None => forall|j: int| 0 <= j < k ==> overlap(ids, #[trigger] sorted@[j]) == 0,
                Some((b, score)) => {
                    &&& b < k
                    &&& score > 0
                    &&& score == overlap(ids, sorted@[b as int])
                    &&& forall|j: int| 0 <= j < b ==> overlap(ids, #[trigger] sorted@[j]) < score
                    &&& forall|j: int| b <= j < k ==> overlap(ids, #[trigger] sorted@[j]) <= score
                },
            },
        decreases sorted@.len() - k,
    {
        let score = count_overlap(&workspace.repos, &sorted[k]);
        if score > 0 {
            let better = match best {
                None => true,
                Some((_, current)) => score > current,
            };
            if better {
                best = Some((k, score));
            }
        }
        k = k + 1;
    }
    match best {
        None => {
            assert forall|i: int| 0 <= i < given.len() implies overlap(ids, #[trigger] given[i])
                == 0 by {
                assert(order.contains(i));
                let m = choose|m: int| 0 <= m < order.len() && order[m] == i;
                assert(sorted@[m] == given[order[m]]);
            }
            None
        },
        Some((b, score)) => {
            proof {
                let i = order[b as int];
                assert(sorted@[b as int] == given[i]);
                assert forall|j: int| 0 <= j < given.len() && j != i implies {
                    ||| overlap(ids, given[i]) > overlap(ids, #[trigger] given[j])
                    ||| overlap(ids, given[i]) == overlap(ids, given[j]) && precedes(given, i, j)
                } by {
                    assert(order.contains(j));
                    let m = choose|m: int| 0 <= m < order.len() && order[m] == j;
                    assert(sorted@[m] == given[order[m]]);
                    if m > b {
                        assert(precedes(given, order[b as int], order[m]));
                    }
                }
                assert(is_best(given, ids, i));
            }
            Some(sorted.swap_remove(b).id)
        },
    }
}

/// At most one environment is the best.
pub proof fn law_best_is_unique(
    envs: Seq<CloudAmbientAgentEnvironment>,
    ids: Seq<RepoId>,
    i: int,
    j: int,
)
    requires
        is_best(envs, ids, i),
        is_best(envs, ids, j),
    ensures
        i == j,
{
}

/// Where some environment holds a touched repository, one of them is the best.
pub proof fn law_best_exists(
    envs: Seq<CloudAmbientAgentEnvironment>,
    ids: Seq<RepoId>,
    holder: int,
)
    requires
        0 <= holder < envs.len(),
        overlap(ids, envs[holder]) > 0,
    ensures
        exists|i: int| is_best(envs, ids, i),
    decreases envs.len(),
{
    let n = envs.len() - 1;
    let front = envs.drop_last();
    if forall|j: int| 0 <= j < n ==> overlap(ids, #[trigger] front[j]) == 0 {
        assert forall|j: int| 0 <= j < n implies overlap(ids, #[trigger] envs[j]) == 0 by {
            assert(front[j] == envs[j]);
        }
        assert(is_best(envs, ids, n));
    } else {
        let j = choose|j: int| 0 <= j < n && overlap(ids, #[trigger] front[j]) != 0;
        law_best_exists(front, ids, j);
        let b = choose|b: int| is_best(front, ids, b);
        assert forall|m: int| 0 <= m < n implies front[m] == #[trigger] envs[m] by {}
        if overlap(ids, envs[n]) > overlap(ids, envs[b]) || (overlap(ids, envs[n]) == overlap(
            ids,
            envs[b],
        ) && recency(envs[n]) > recency(envs[b])) {
            assert(is_best(envs, ids, n));
        } else {
            assert(is_best(envs, ids, b));
        }
    }
}

/// The overlap is zero exactly where the environment holds none of the touched repositories.
pub proof fn law_no_overlap(ids: Seq<RepoId>, env: CloudAmbientAgentEnvironment)
    ensures
        overlap(ids, env) == 0 <==> forall|k: int|
            0 <= k < ids.len() ==> !holds_repo(env, #[trigger] ids[k]),
    decreases ids.len(),
{
    if ids.len() > 0 {
        let front = ids.drop_last();
        law_no_overlap(front, env);
        assert forall|k: int| 0 <= k < front.len() implies front[k] == #[trigger] ids[k] by {}
        if overlap(ids, env) == 0 {
            assert forall|k: int| 0 <= k < ids.len() implies !holds_repo(env, #[trigger] ids[k]) by {
                if k < front.len() {
                    assert(!holds_repo(env, front[k]));
                }
            }
        } else if overlap(front, env) != 0 {
            let k = choose|k: int| 0 <= k < front.len() && holds_repo(env, #[trigger] front[k]);
            assert(holds_repo(env, ids[k]));
        } else {
            assert(holds_repo(env, ids[ids.len() - 1]));
        }
    }
}

} // verus!
