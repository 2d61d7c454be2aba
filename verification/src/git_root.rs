//! The git working tree that a path belongs to.

use vstd::prelude::*;

use crate::disk;
#[allow(unused_imports)]
use crate::disk::{dir_answer, exists_answer};
use crate::paths::{join, parent};
#[allow(unused_imports)]
use crate::paths::{
    ancestors, components_of, joined, law_ancestors_by_depth, law_components_of_one_piece,
    law_joined_components, law_joined_text, law_parent_drops_last_component,
    law_parent_is_shortest_start, least_depth, parent_of,
};
#[allow(unused_imports)]
use crate::text::text_of;

verus! {

/// The directories in which a `.git` is looked for, nearest first: the path itself where it is a
/// directory, and all that enclose it.
pub open spec fn enclosing_dirs(path: Seq<char>, is_dir: bool) -> Seq<Seq<char>> {
    if is_dir {
        ancestors(path)
    } else {
        match parent_of(path) {
            Some(d) => ancestors(d),
            None => Seq::empty(),
        }
    }
}

/// Directory `k` is the first of `dirs` about whose `.git` the answer was yes. `answers` says
/// which answers about a path can have been given.
pub open spec fn is_first_at(
    dirs: Seq<Seq<char>>,
    k: int,
    answers: spec_fn(Seq<char>, bool) -> bool,
) -> bool {
    &&& 0 <= k < dirs.len()
    &&& answers(joined(dirs[k], ".git"@), true)
    &&& forall|j: int| 0 <= j < k ==> answers(joined(#[trigger] dirs[j], ".git"@), false)
}

/// `root` is the first of `dirs` about whose `.git` the answer was yes, and `None` where it was
/// no about all of them.
pub open spec fn is_first_git_dir(
    dirs: Seq<Seq<char>>,
    root: Option<Seq<char>>,
    answers: spec_fn(Seq<char>, bool) -> bool,
) -> bool {
    match root {
        Some(r) => exists|k: int| #[trigger] is_first_at(dirs, k, answers) && dirs[k] == r,
        None => forall|j: int|
            0 <= j < dirs.len() ==> answers(joined(#[trigger] dirs[j], ".git"@), false),
    }
}

/// The answers that `has_entry` can give about a path.
pub open spec fn answers_of<F: Fn(&str) -> bool>(
    has_entry: F,
) -> spec_fn(Seq<char>, bool) -> bool {
    |p: Seq<char>, answer: bool| exists|s: &str| s@ == p && #[trigger] call_ensures(has_entry, (s,), answer)
}

proof fn lemma_ancestors(p: Seq<char>)
    ensures
        ancestors(p).len() > 0,
        ancestors(p)[0] == p,
        match parent_of(p) {
            Some(d) => ancestors(p).drop_first() == ancestors(d),
            None => ancestors(p).len() == 1,
        },
{
    if let Some(d) = parent_of(p) {
        assert(ancestors(p).drop_first() =~= ancestors(d));
    }
}

/// Walks up from `path` to the nearest directory that holds a `.git`, asking `has_entry` about one
/// directory after the other.
pub fn nearest_git_root<F: Fn(&str) -> bool>(path: &str, is_dir: bool, has_entry: F) -> (root: Option<
    String,
>)
    requires
        forall|s: &str| call_requires(has_entry, (s,)),
    ensures
        is_first_git_dir(enclosing_dirs(path@, is_dir), text_of(root), answers_of(has_entry)),
        root matches Some(r) ==> enclosing_dirs(path@, is_dir).contains(r@) && exists|s: &str|
            s@ == joined(r@, ".git"@) && #[trigger] call_ensures(has_entry, (s,), true),
{
    let ghost dirs = enclosing_dirs(path@, is_dir);
    let mut cursor: Option<&str> = if is_dir {
        Some(path)
    } else {
        parent(path)
    };
    let ghost mut k: int = 0;
    assert(cursor matches Some(d) ==> dirs.skip(0) =~= ancestors(d@));
    while cursor.is_some()
        invariant
            forall|s: &str| call_requires(has_entry, (s,)),
            dirs == enclosing_dirs(path@, is_dir),
            0 <= k <= dirs.len(),
            match cursor {
                Some(d) => dirs.skip(k) == ancestors(d@),
                None => k == dirs.len(),
            },
            forall|j: int|
                0 <= j < k ==> answers_of(has_entry)(joined(#[trigger] dirs[j], ".git"@), false),
        decreases dirs.len() - k,
    {
        let dir: &str = cursor.unwrap();
        let candidate = join(dir, ".git");
        proof {
            lemma_ancestors(dir@);
            assert(dirs.skip(k).len() == ancestors(dir@).len());
            assert(dirs[k] == dirs.skip(k)[0]);
        }
        if has_entry(candidate.as_str()) {
            assert(is_first_at(dirs, k, answers_of(has_entry)));
            return Some(dir.to_owned());
        }
        cursor = parent(dir);
        proof {
            assert(dirs.skip(k + 1) =~= dirs.skip(k).drop_first());
            k = k + 1;
        }
    }
    None
}

proof fn lemma_more_answers(
    dirs: Seq<Seq<char>>,
    root: Option<Seq<char>>,
    fewer: spec_fn(Seq<char>, bool) -> bool,
    more: spec_fn(Seq<char>, bool) -> bool,
)
    requires
        is_first_git_dir(dirs, root, fewer),
        forall|p: Seq<char>, answer: bool| #[trigger] fewer(p, answer) ==> more(p, answer),
    ensures
        is_first_git_dir(dirs, root, more),
{
    if let Some(r) = root {
        let k = choose|k: int| #[trigger] is_first_at(dirs, k, fewer) && dirs[k] == r;
        assert(is_first_at(dirs, k, more));
    }
}

/// The answers that the file system can give when it is asked whether a path exists.
pub open spec fn disk_answers() -> spec_fn(Seq<char>, bool) -> bool {
    |p: Seq<char>, answer: bool| exists_answer(p, answer)
}

/// An answer counts only where what was asked gives it.
pub proof fn law_answers_are_given<F: Fn(&str) -> bool>(
    has_entry: F,
    p: Seq<char>,
    answer: bool,
)
    ensures
        answers_of(has_entry)(p, answer) <==> exists|s: &str|
            s@ == p && #[trigger] call_ensures(has_entry, (s,), answer),
        disk_answers()(p, answer) <==> exists_answer(p, answer),
{
}

/// The file system can have given the answers that make `root` the working tree of `path`.
pub open spec fn found_git_root(path: Seq<char>, root: Option<Seq<char>>) -> bool {
    exists|is_dir: bool| #[trigger]
        dir_answer(path, is_dir) && is_first_git_dir(
            enclosing_dirs(path, is_dir),
            root,
            disk_answers(),
        )
}

/// Walks up from `path` to the nearest directory that holds a `.git` and returns that directory,
/// the root of the working tree. Returns `None` where no `.git` is found.
pub fn find_git_root(path: &str) -> (root: Option<String>)
    ensures
        found_git_root(path@, text_of(root)),
{
    let is_dir = disk::is_dir(path);
    let root = nearest_git_root(path, is_dir, disk::entry_exists);
    proof {
        lemma_more_answers(
            enclosing_dirs(path@, is_dir),
            text_of(root),
            answers_of(disk::entry_exists),
            disk_answers(),
        );
    }
    root
}

proof fn lemma_ancestor(p: Seq<char>, k: int)
    requires
        0 <= k < ancestors(p).len(),
    ensures
        ancestors(p)[k].is_prefix_of(p),
        components_of(ancestors(p)[k]).is_prefix_of(components_of(p)),
    decreases k,
{
    lemma_ancestors(p);
    if k > 0 {
        law_parent_drops_last_component(p);
        let d = parent_of(p)->0;
        let a = ancestors(p)[k];
        assert(ancestors(p).drop_first()[k - 1] == a);
        lemma_ancestor(d, k - 1);
        assert(a =~= p.take(a.len() as int)) by {
            assert(d =~= p.take(d.len() as int));
        }
        let c = components_of(a);
        assert(c =~= components_of(p).take(c.len() as int)) by {
            assert(components_of(d) =~= components_of(p).drop_last());
        }
    }
}

/// The working tree of a path encloses it: the root is a start of the path's text and is made
/// of the path's first components.
pub proof fn law_git_root_encloses_path(
    path: Seq<char>,
    is_dir: bool,
    root: Seq<char>,
    answers: spec_fn(Seq<char>, bool) -> bool,
)
    requires
        is_first_git_dir(enclosing_dirs(path, is_dir), Some(root), answers),
    ensures
        root.is_prefix_of(path),
        components_of(root).is_prefix_of(components_of(path)),
{
    let dirs = enclosing_dirs(path, is_dir);
    let k = choose|k: int| #[trigger] is_first_at(dirs, k, answers) && dirs[k] == root;
    if is_dir {
        lemma_ancestor(path, k);
    } else {
        lemma_ancestors(path);
        assert(ancestors(path).drop_first()[k] == ancestors(path)[k + 1]);
        lemma_ancestor(path, k + 1);
    }
}

/// Where no question is answered both ways, there is only one nearest working tree.
pub proof fn law_nearest_git_root_is_unique(
    dirs: Seq<Seq<char>>,
    first: Option<Seq<char>>,
    second: Option<Seq<char>>,
    answers: spec_fn(Seq<char>, bool) -> bool,
)
    requires
        forall|p: Seq<char>| !(#[trigger] answers(p, true) && answers(p, false)),
        is_first_git_dir(dirs, first, answers),
        is_first_git_dir(dirs, second, answers),
    ensures
        first == second,
{
    match (first, second) {
        (Some(r), Some(s)) => {
            let k = choose|k: int| #[trigger] is_first_at(dirs, k, answers) && dirs[k] == r;
            let l = choose|l: int| #[trigger] is_first_at(dirs, l, answers) && dirs[l] == s;
            if k < l {
                assert(answers(joined(dirs[k], ".git"@), false));
            } else if l < k {
                assert(answers(joined(dirs[l], ".git"@), false));
            }
        },
        _ => {},
    }
}

/// The number of components of the nearest directory that is looked at: the path's own where it
/// is a directory, else one less.
pub open spec fn nearest_depth(path: Seq<char>, is_dir: bool) -> int {
    if is_dir {
        components_of(path).len() as int
    } else {
        components_of(path).len() - 1
    }
}

/// Every directory that encloses a path is looked at, at any depth and the root included, the
/// nearest first: one for each number of components.
pub proof fn law_every_enclosing_dir_is_looked_at(path: Seq<char>, is_dir: bool)
    ensures
        enclosing_dirs(path, is_dir).len() == nearest_depth(path, is_dir) - least_depth(path) + 1,
        forall|k: int|
            0 <= k < enclosing_dirs(path, is_dir).len() ==> {
                &&& (#[trigger] enclosing_dirs(path, is_dir)[k]).is_prefix_of(path)
                &&& components_of(enclosing_dirs(path, is_dir)[k]) == components_of(path).take(
                    nearest_depth(path, is_dir) - k,
                )
            },
        is_dir ==> enclosing_dirs(path, is_dir).contains(path),
        forall|d: Seq<char>, e: Seq<char>|
            (d == path || enclosing_dirs(path, is_dir).contains(d)) && #[trigger] parent_of(d)
                == Some(e) ==> #[trigger] enclosing_dirs(path, is_dir).contains(e),
{
    let dirs = enclosing_dirs(path, is_dir);
    let up = ancestors(path);
    law_ancestors_by_depth(path);
    law_parent_is_shortest_start(path);
    lemma_ancestors(path);
    if is_dir {
        assert(dirs[0] == path);
    } else {
        assert(dirs =~= up.drop_first()) by {
            if parent_of(path) is None {
                assert(up.drop_first() =~= Seq::empty());
            }
        }
        assert forall|k: int| 0 <= k < dirs.len() implies {
            &&& (#[trigger] dirs[k]).is_prefix_of(path)
            &&& components_of(dirs[k]) == components_of(path).take(nearest_depth(path, is_dir) - k)
        } by {
            assert(dirs[k] == up[k + 1]);
        }
    }
    assert forall|d: Seq<char>, e: Seq<char>|
        (d == path || dirs.contains(d)) && #[trigger] parent_of(d) == Some(
            e,
        ) implies #[trigger] dirs.contains(e) by {
        if d == path && !is_dir {
            assert(dirs == ancestors(e));
            lemma_ancestors(e);
            assert(dirs[0] == e);
        } else {
            if d == path {
                assert(dirs[0] == d);
            }
            let k = choose|k: int| 0 <= k < dirs.len() && dirs[k] == d;
            let start = dirs[0];
            assert(dirs == ancestors(start)) by {
                if is_dir {
                } else if let Some(f) = parent_of(path) {
                    lemma_ancestors(f);
                }
            }
            lemma_next_ancestor(start, k);
        }
    }
}

proof fn lemma_next_ancestor(p: Seq<char>, k: int)
    requires
        0 <= k < ancestors(p).len(),
    ensures
        parent_of(ancestors(p)[k]) matches Some(e) ==> ancestors(p).contains(e),
    decreases k,
{
    lemma_ancestors(p);
    if let Some(d) = parent_of(p) {
        lemma_ancestors(d);
        assert(ancestors(p).drop_first()[0] == ancestors(p)[1]);
        if k > 0 {
            assert(ancestors(p).drop_first()[k - 1] == ancestors(p)[k]);
            lemma_next_ancestor(d, k - 1);
            if let Some(e) = parent_of(ancestors(p)[k]) {
                let m = choose|m: int| 0 <= m < ancestors(d).len() && ancestors(d)[m] == e;
                assert(ancestors(p).drop_first()[m] == ancestors(p)[m + 1]);
            }
        }
    }
}

/// The answer `answer` was given about the `.git` behind the first `depth` components of `path`.
pub open spec fn answered_at(
    path: Seq<char>,
    depth: int,
    answer: bool,
    answers: spec_fn(Seq<char>, bool) -> bool,
) -> bool {
    exists|q: Seq<char>|
        {
            &&& #[trigger] answers(q, answer)
            &&& components_of(q) == components_of(path).take(depth).push(".git"@)
        }
}

proof fn lemma_dot_git_components(d: Seq<char>)
    ensures
        components_of(joined(d, ".git"@)) == components_of(d).push(".git"@),
{
    reveal_strlit(".git");
    let name = ".git"@;
    assert(!name.contains('/')) by {
        assert forall|i: int| 0 <= i < name.len() implies name[i] != '/' by {}
    }
    law_components_of_one_piece(name);
    if d.len() > 0 {
        law_joined_components(d, name);
    } else {
        law_joined_text(d, name);
        assert(joined(d, name) =~= name);
        law_components_of_one_piece(d);
    }
    assert(components_of(joined(d, name)) =~= components_of(d).push(name));
}

/// Where no working tree is found, the answer was no about the `.git` at every depth, from the
/// path up to the root.
pub proof fn law_no_git_root_means_no_at_every_depth(
    path: Seq<char>,
    is_dir: bool,
    answers: spec_fn(Seq<char>, bool) -> bool,
    depth: int,
)
    requires
        is_first_git_dir(enclosing_dirs(path, is_dir), None, answers),
        least_depth(path) <= depth <= nearest_depth(path, is_dir),
    ensures
        answered_at(path, depth, false, answers),
{
    let dirs = enclosing_dirs(path, is_dir);
    law_every_enclosing_dir_is_looked_at(path, is_dir);
    let d = dirs[nearest_depth(path, is_dir) - depth];
    lemma_dot_git_components(d);
    assert(answers(joined(d, ".git"@), false));
}

/// Where a working tree is found, its root is the start of the path at some depth, the answer
/// was yes about the `.git` there, and no about the one at every greater depth.
pub proof fn law_git_root_is_the_deepest_yes(
    path: Seq<char>,
    is_dir: bool,
    root: Seq<char>,
    answers: spec_fn(Seq<char>, bool) -> bool,
)
    requires
        is_first_git_dir(enclosing_dirs(path, is_dir), Some(root), answers),
    ensures
        root.is_prefix_of(path),
        exists|depth: int|
            {
                &&& least_depth(path) <= depth <= nearest_depth(path, is_dir)
                &&& components_of(root) == components_of(path).take(depth)
                &&& #[trigger] answered_at(path, depth, true, answers)
                &&& forall|deeper: int|
                    depth < deeper <= nearest_depth(path, is_dir) ==> #[trigger] answered_at(
                        path,
                        deeper,
                        false,
                        answers,
                    )
            },
{
    let dirs = enclosing_dirs(path, is_dir);
    law_every_enclosing_dir_is_looked_at(path, is_dir);
    let k = choose|k: int| #[trigger] is_first_at(dirs, k, answers) && dirs[k] == root;
    let depth = nearest_depth(path, is_dir) - k;
    lemma_dot_git_components(root);
    assert(answered_at(path, depth, true, answers));
    assert forall|deeper: int| depth < deeper <= nearest_depth(path, is_dir) implies #[trigger] answered_at(
        path,
        deeper,
        false,
        answers,
    ) by {
        let d = dirs[nearest_depth(path, is_dir) - deeper];
        lemma_dot_git_components(d);
        assert(answers(joined(d, ".git"@), false));
    }
}

/// What a search on the file system says: `None` only where it said no about the `.git` at every
/// depth, counted from the path where it said that the path is a directory and from its parent
/// where it said that it is not; and a root only where that is the deepest yes.
pub proof fn law_found_git_root(path: Seq<char>, root: Option<Seq<char>>)
    requires
        found_git_root(path, root),
    ensures
        exists|is_dir: bool|
            {
                &&& #[trigger] dir_answer(path, is_dir)
                &&& root is None ==> forall|depth: int|
                    least_depth(path) <= depth <= nearest_depth(path, is_dir)
                        ==> #[trigger] answered_at(
                        path,
                        depth,
                        false,
                        disk_answers(),
                    )
                &&& root matches Some(r) ==> r.is_prefix_of(path) && exists|depth: int|
                    {
                        &&& least_depth(path) <= depth <= nearest_depth(path, is_dir)
                        &&& components_of(r) == components_of(path).take(depth)
                        &&& #[trigger] answered_at(
                            path,
                            depth,
                            true,
                            disk_answers(),
                        )
                        &&& forall|deeper: int|
                            depth < deeper <= nearest_depth(path, is_dir)
                                ==> #[trigger] answered_at(
                                path,
                                deeper,
                                false,
                                disk_answers(),
                            )
                    }
            },
{
    let answers = disk_answers();
    let is_dir = choose|is_dir: bool| #[trigger]
        dir_answer(path, is_dir) && is_first_git_dir(
            enclosing_dirs(path, is_dir),
            root,
            disk_answers(),
        );
    match root {
        None => {
            assert forall|depth: int|
                least_depth(path) <= depth <= nearest_depth(path, is_dir) implies #[trigger] answered_at(
                path,
                depth,
                false,
                answers,
            ) by {
                law_no_git_root_means_no_at_every_depth(path, is_dir, answers, depth);
            }
        },
        Some(r) => {
            law_git_root_is_the_deepest_yes(path, is_dir, r, answers);
        },
    }
}

} // verus!
