//! What holds of the touched workspace, in terms of the paths, of what the file system answered
//! about them, and of what git wrote.

use vstd::prelude::*;
#[allow(unused_imports)]
use vstd::utf8::{decode_utf8, valid_utf8};

#[allow(unused_imports)]
use crate::disk::file_answer;
use crate::git::GitOutcome;
#[allow(unused_imports)]
use crate::git_root::found_git_root;
#[allow(unused_imports)]
use crate::github::{
    is_dot_git_url, is_plain_url, law_github_url_names_its_repo, law_named_repo_is_in_its_url,
    law_white_space_around_url_is_ignored, named_repo,
};
#[allow(unused_imports)]
use crate::path_list::{
    first_of_each, holds_path, is_first_text, law_first_of_each, law_first_of_each_keeps_order,
    law_with_paths_adds_new_ones, with_paths,
};
#[allow(unused_imports)]
use crate::paths::{components_of, law_texts, same_path, texts};
#[allow(unused_imports)]
use crate::text::{is_all_white, is_white_space, trimmed};
#[allow(unused_imports)]
use crate::workspace::{found_at, groups, loose_files_among, origin_repo, roots_among};
use crate::workspace::{GroupedPaths, Place};

verus! {

/// The repository of a working tree is the one that the URL of its remote is made of: for each
/// of the three ways to write a GitHub URL, with `.git` behind it or without, and with whatever
/// white space git wrote around it.
pub proof fn law_origin_url_gives_the_repo(
    stdout: Vec<u8>,
    before: Seq<char>,
    url: Seq<char>,
    behind: Seq<char>,
    owner: Seq<char>,
    repo: Seq<char>,
)
    requires
        valid_utf8(stdout@),
        decode_utf8(stdout@) == before + url + behind,
        is_all_white(before),
        is_all_white(behind),
        owner.len() > 0,
        !owner.contains('/'),
        repo.len() > 0,
        is_dot_git_url(url, owner, repo) || is_plain_url(url, owner, repo) && !is_white_space(
            repo.last(),
        ),
    ensures
        origin_repo(GitOutcome::Finished { success: true, stdout }) == Some((owner, repo)),
{
    law_github_url_names_its_repo(before, url, behind, owner, repo);
    law_origin_repo_is_what_the_output_names(GitOutcome::Finished { success: true, stdout });
}

/// The repository of a working tree is the one that what git wrote names, where git succeeded
/// and wrote UTF-8; everywhere else there is none.
pub proof fn law_origin_repo_is_what_the_output_names(outcome: GitOutcome)
    ensures
        outcome matches GitOutcome::Finished { success, stdout } ==> origin_repo(outcome) == (
        if success && valid_utf8(stdout@) {
            named_repo(decode_utf8(stdout@))
        } else {
            None
        }),
        outcome is NotRun || outcome is TimedOut ==> origin_repo(outcome) is None,
{
    reveal_strlit("git@github.com:");
    reveal_strlit("https://github.com/");
    reveal_strlit("ssh://git@github.com/");
    if let GitOutcome::Finished { success, stdout } = outcome {
        let text = decode_utf8(stdout@);
        law_white_space_around_url_is_ignored(text);
        if trimmed(text).len() == 0 {
            assert(named_repo(text) is None);
        }
    }
}

/// A working tree has a repository only where git succeeded and wrote a GitHub URL made of it.
pub proof fn law_origin_repo_is_in_the_output(
    outcome: GitOutcome,
    owner: Seq<char>,
    repo: Seq<char>,
)
    requires
        origin_repo(outcome) == Some((owner, repo)),
    ensures
        owner.len() > 0,
        !owner.contains('/'),
        repo.len() > 0,
        ({
            &&& outcome matches GitOutcome::Finished { success, stdout }
            &&& success
            &&& valid_utf8(stdout@)
            &&& is_dot_git_url(trimmed(decode_utf8(stdout@)), owner, repo) || is_plain_url(
                trimmed(decode_utf8(stdout@)),
                owner,
                repo,
            )
        }),
{
    law_origin_repo_is_what_the_output_names(outcome);
    if let GitOutcome::Finished { success, stdout } = outcome {
        law_named_repo_is_in_its_url(decode_utf8(stdout@), owner, repo);
    }
}

/// Every place in a working tree counts, and every loose file, whatever stands before or behind
/// it, in the order of the places.
pub proof fn law_every_place_counts(places: Seq<Place>)
    ensures
        roots_among(places) == places.filter(|p: Place| p is InRepo).map_values(
            |p: Place| p->InRepo_0@,
        ),
        loose_files_among(places) == places.filter(|p: Place| p is LooseFile).map_values(
            |p: Place| p->LooseFile_0@,
        ),
    decreases places.len(),
{
    reveal(Seq::filter);
    if places.len() > 0 {
        law_every_place_counts(places.drop_last());
    }
    assert(roots_among(places) =~= places.filter(|p: Place| p is InRepo).map_values(
        |p: Place| p->InRepo_0@,
    ));
    assert(loose_files_among(places) =~= places.filter(|p: Place| p is LooseFile).map_values(
        |p: Place| p->LooseFile_0@,
    ));
}

/// The place that a root comes from. A root further back comes from a place further back.
proof fn lemma_place_of_root(places: Seq<Place>, k: int) -> (i: int)
    requires
        0 <= k < roots_among(places).len(),
    ensures
        0 <= i < places.len(),
        places[i] matches Place::InRepo(root) && root@ == roots_among(places)[k],
        roots_among(places.take(i)) == roots_among(places).take(k),
    decreases places.len(),
{
    let front = places.drop_last();
    if k < roots_among(front).len() {
        let i = lemma_place_of_root(front, k);
        assert(front[i] == places[i]);
        assert(places.take(i) =~= front.take(i));
        assert(roots_among(places).take(k) =~= roots_among(front).take(k));
        i
    } else {
        let i = places.len() - 1;
        assert(places.take(i) =~= front);
        assert(roots_among(places).take(k) =~= roots_among(front));
        i
    }
}

proof fn lemma_root_of_place(places: Seq<Place>, i: int) -> (k: int)
    requires
        0 <= i < places.len(),
        places[i] is InRepo,
    ensures
        0 <= k < roots_among(places).len(),
        roots_among(places)[k] == places[i]->InRepo_0@,
        roots_among(places.take(i)) == roots_among(places).take(k),
    decreases places.len(),
{
    let front = places.drop_last();
    if i < front.len() {
        assert(front[i] == places[i]);
        let k = lemma_root_of_place(front, i);
        assert(places.take(i) =~= front.take(i));
        assert(roots_among(places).take(k) =~= roots_among(front).take(k));
        k
    } else {
        assert(places.take(i) =~= front);
        assert(roots_among(places).take(roots_among(front).len() as int) =~= roots_among(front));
        roots_among(front).len() as int
    }
}

/// Where the places are grouped, every working tree that a path was found in is among the roots,
/// and no two roots have the same components.
pub proof fn law_roots_by_place(places: Seq<Place>, grouped: GroupedPaths, i: int)
    requires
        groups(places, grouped),
        0 <= i < places.len(),
    ensures
        places[i] matches Place::InRepo(root) ==> exists|m: int|
            0 <= m < grouped.git_roots@.len() && components_of(
                (#[trigger] grouped.git_roots@[m])@,
            ) == components_of(root@),
        forall|k: int, l: int|
            0 <= k < l < grouped.git_roots@.len() ==> components_of(
                (#[trigger] grouped.git_roots@[k])@,
            ) != components_of((#[trigger] grouped.git_roots@[l])@),
{
    let roots = roots_among(places);
    let kept = with_paths(Seq::empty(), roots);
    assert(texts(grouped.git_roots@) == kept);
    law_texts(grouped.git_roots@);
    law_with_paths_adds_new_ones(Seq::empty(), roots);
    assert forall|k: int, l: int| 0 <= k < l < grouped.git_roots@.len() implies components_of(
        (#[trigger] grouped.git_roots@[k])@,
    ) != components_of((#[trigger] grouped.git_roots@[l])@) by {
        assert(kept[k] == grouped.git_roots@[k]@);
        assert(kept[l] == grouped.git_roots@[l]@);
    }
    if let Place::InRepo(root) = places[i] {
        let n = lemma_root_of_place(places, i);
        assert(roots[n] == root@);
        let m = choose|m: int|
            0 <= m < kept.len() && components_of(#[trigger] kept[m]) == components_of(roots[n]);
        assert(components_of(grouped.git_roots@[m]@) == components_of(root@));
    }
}

/// `b` is the first place in the working tree at `root`, and there the root is spelled so.
pub open spec fn is_first_place(places: Seq<Place>, b: int, root: Seq<char>) -> bool {
    &&& 0 <= b < places.len()
    &&& places[b] matches Place::InRepo(r) && r@ == root
    &&& forall|c: int|
        0 <= c < b && (#[trigger] places[c]) is InRepo ==> components_of(places[c]->InRepo_0@)
            != components_of(root)
}

/// The roots stand in the order in which they were first met, each as it was spelled there.
pub proof fn law_roots_keep_order(places: Seq<Place>, grouped: GroupedPaths, k: int, l: int)
    requires
        groups(places, grouped),
        0 <= k < l < grouped.git_roots@.len(),
    ensures
        exists|a: int, b: int|
            {
                &&& a < b
                &&& #[trigger] is_first_place(places, a, grouped.git_roots@[k]@)
                &&& #[trigger] is_first_place(places, b, grouped.git_roots@[l]@)
            },
{
    let roots = roots_among(places);
    law_texts(grouped.git_roots@);
    let first = first_of_each(roots)[k];
    let second = first_of_each(roots)[l];
    assert(texts(grouped.git_roots@)[k] == first);
    assert(texts(grouped.git_roots@)[l] == second);
    let a = lemma_first_place(places, k);
    let b = lemma_first_place(places, l);
    law_first_of_each_keeps_order(roots, k, l);
    let (x, y): (int, int) = choose|x: int, y: int|
        {
            &&& 0 <= x < y < roots.len()
            &&& #[trigger] roots[x] == first
            &&& #[trigger] roots[y] == second
            &&& forall|m: int|
                0 <= m < y ==> components_of(#[trigger] roots[m]) != components_of(roots[y])
        };
    let c = lemma_place_of_root(places, x);
    let d = lemma_place_of_root(places, y);
    lemma_roots_grow(places, c, d);
    assert(a <= c);
    if b < d {
        let m = lemma_root_of_place(places, b);
        lemma_earlier_root(places, b, m, d, y);
        assert(components_of(roots[m]) != components_of(roots[y]));
    }
}

/// The first place of a root that was kept.
proof fn lemma_first_place(places: Seq<Place>, k: int) -> (b: int)
    requires
        0 <= k < first_of_each(roots_among(places)).len(),
    ensures
        is_first_place(places, b, first_of_each(roots_among(places))[k]),
{
    let roots = roots_among(places);
    let root = first_of_each(roots)[k];
    law_first_of_each(roots);
    assert(is_first_text(roots, root));
    let y = choose|y: int|
        0 <= y < roots.len() && #[trigger] roots[y] == root && !holds_path(roots.take(y), root);
    let b = lemma_place_of_root(places, y);
    assert forall|c: int| 0 <= c < b && (#[trigger] places[c]) is InRepo implies components_of(
        places[c]->InRepo_0@,
    ) != components_of(root) by {
        let n = lemma_root_of_place(places, c);
        lemma_earlier_root(places, c, n, b, y);
        assert(roots.take(y)[n] == roots[n]);
        assert(!same_path(roots.take(y)[n], root));
    }
    b
}

proof fn lemma_earlier_root(places: Seq<Place>, c: int, n: int, b: int, y: int)
    requires
        0 <= c < b < places.len(),
        places[c] is InRepo,
        0 <= n < roots_among(places).len(),
        0 <= y < roots_among(places).len(),
        roots_among(places.take(c)) == roots_among(places).take(n),
        roots_among(places.take(b)) == roots_among(places).take(y),
    ensures
        n < y,
{
    let upto = places.take(c + 1);
    assert(upto.drop_last() =~= places.take(c));
    assert(upto.last() == places[c]);
    lemma_roots_of_start(places.take(b), c + 1);
    assert(places.take(b).take(c + 1) =~= upto);
}

proof fn lemma_roots_grow(places: Seq<Place>, a: int, b: int)
    requires
        0 <= a < places.len(),
        0 <= b < places.len(),
        roots_among(places.take(a)).len() < roots_among(places.take(b)).len(),
    ensures
        a < b,
{
    if b <= a {
        lemma_roots_of_start(places.take(a), b);
        assert(places.take(a).take(b) =~= places.take(b));
    }
}

proof fn lemma_roots_of_start(places: Seq<Place>, n: int)
    requires
        0 <= n <= places.len(),
    ensures
        roots_among(places.take(n)).len() <= roots_among(places).len(),
    decreases places.len(),
{
    if n < places.len() {
        lemma_roots_of_start(places.drop_last(), n);
        assert(places.drop_last().take(n) =~= places.take(n));
    } else {
        assert(places.take(n) =~= places);
    }
}

/// A root among the grouped ones is the root that some path was found in.
pub proof fn law_root_comes_from_a_path(
    paths: Seq<String>,
    places: Seq<Place>,
    grouped: GroupedPaths,
    k: int,
)
    requires
        places.len() == paths.len(),
        forall|i: int| 0 <= i < paths.len() ==> found_at(paths[i]@, #[trigger] places[i]),
        groups(places, grouped),
        0 <= k < grouped.git_roots@.len(),
    ensures
        exists|i: int|
            0 <= i < paths.len() && found_git_root(
                (#[trigger] paths[i])@,
                Some(grouped.git_roots@[k]@),
            ),
{
    let roots = roots_among(places);
    let kept = with_paths(Seq::empty(), roots);
    assert(texts(grouped.git_roots@) == kept);
    law_texts(grouped.git_roots@);
    law_with_paths_adds_new_ones(Seq::empty(), roots);
    assert(roots.contains(kept[k]));
    let x = choose|x: int| 0 <= x < roots.len() && roots[x] == kept[k];
    let i = lemma_place_of_root(places, x);
    assert(found_at(paths[i]@, places[i]));
    assert(found_git_root(paths[i]@, Some(grouped.git_roots@[k]@)));
}

/// Every path for which the search found a root has that root among the grouped ones, in some
/// spelling; every path for which it found none is a loose file exactly where the file system
/// said that it is a file.
pub proof fn law_every_path_is_grouped(
    paths: Seq<String>,
    places: Seq<Place>,
    grouped: GroupedPaths,
    i: int,
)
    requires
        places.len() == paths.len(),
        forall|j: int| 0 <= j < paths.len() ==> found_at(paths[j]@, #[trigger] places[j]),
        groups(places, grouped),
        0 <= i < paths.len(),
    ensures
        ({
            ||| exists|k: int|
                {
                    &&& 0 <= k < grouped.git_roots@.len()
                    &&& places[i] is InRepo
                    &&& found_git_root(paths[i]@, Some(places[i]->InRepo_0@))
                    &&& components_of((#[trigger] grouped.git_roots@[k])@) == components_of(
                        places[i]->InRepo_0@,
                    )
                }
            ||| exists|k: int|
                {
                    &&& 0 <= k < grouped.orphan_files@.len()
                    &&& found_git_root(paths[i]@, None)
                    &&& file_answer(paths[i]@, true)
                    &&& (#[trigger] grouped.orphan_files@[k])@ == paths[i]@
                }
            ||| found_git_root(paths[i]@, None) && file_answer(paths[i]@, false)
        }),
{
    law_texts(grouped.git_roots@);
    law_texts(grouped.orphan_files@);
    let roots = roots_among(places);
    let kept = with_paths(Seq::empty(), roots);
    assert(texts(grouped.git_roots@) == kept);
    law_with_paths_adds_new_ones(Seq::empty(), roots);
    assert(found_at(paths[i]@, places[i]));
    if places[i] is InRepo {
        let n = lemma_root_of_place(places, i);
        let m = choose|m: int|
            0 <= m < kept.len() && components_of(#[trigger] kept[m]) == components_of(roots[n]);
        assert(kept[m] == grouped.git_roots@[m]@);
    } else if places[i] is LooseFile {
        let k = lemma_file_of_place(places, i);
        assert(texts(grouped.orphan_files@)[k] == grouped.orphan_files@[k]@);
        assert(grouped.orphan_files@[k]@ == paths[i]@);
    }
}

proof fn lemma_file_of_place(places: Seq<Place>, i: int) -> (k: int)
    requires
        0 <= i < places.len(),
        places[i] is LooseFile,
    ensures
        0 <= k < loose_files_among(places).len(),
        loose_files_among(places)[k] == places[i]->LooseFile_0@,
    decreases places.len(),
{
    let front = places.drop_last();
    if i < front.len() {
        assert(front[i] == places[i]);
        lemma_file_of_place(front, i)
    } else {
        loose_files_among(front).len() as int
    }
}

proof fn lemma_place_of_file(places: Seq<Place>, k: int) -> (i: int)
    requires
        0 <= k < loose_files_among(places).len(),
    ensures
        0 <= i < places.len(),
        places[i] matches Place::LooseFile(file) && file@ == loose_files_among(places)[k],
    decreases places.len(),
{
    let front = places.drop_last();
    if k < loose_files_among(front).len() {
        let i = lemma_place_of_file(front, k);
        assert(front[i] == places[i]);
        i
    } else {
        places.len() - 1
    }
}

/// The loose files are one for each path that is one, in the order of the paths, and each is a
/// path that the search found no root for and that the file system said is a file.
pub proof fn law_loose_files_by_path(
    paths: Seq<String>,
    places: Seq<Place>,
    grouped: GroupedPaths,
    k: int,
)
    requires
        places.len() == paths.len(),
        forall|j: int| 0 <= j < paths.len() ==> found_at(paths[j]@, #[trigger] places[j]),
        groups(places, grouped),
        0 <= k < grouped.orphan_files@.len(),
    ensures
        texts(grouped.orphan_files@) == places.filter(|p: Place| p is LooseFile).map_values(
            |p: Place| p->LooseFile_0@,
        ),
        exists|i: int|
            {
                &&& 0 <= i < paths.len()
                &&& (#[trigger] paths[i])@ == grouped.orphan_files@[k]@
                &&& found_git_root(paths[i]@, None)
                &&& file_answer(paths[i]@, true)
            },
{
    law_texts(grouped.orphan_files@);
    law_every_place_counts(places);
    assert(texts(grouped.orphan_files@)[k] == grouped.orphan_files@[k]@);
    let i = lemma_place_of_file(places, k);
    assert(found_at(paths[i]@, places[i]));
    assert(paths[i]@ == grouped.orphan_files@[k]@);
}

} // verus!
