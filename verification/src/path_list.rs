//! A list of paths in which no path occurs twice.

use vstd::prelude::*;

use crate::paths::{components, same_texts};
#[allow(unused_imports)]
use crate::paths::{components_of, same_path, texts};

verus! {

/// Whether some text of `paths` denotes the path `p`.
pub open spec fn holds_path(paths: Seq<Seq<char>>, p: Seq<char>) -> bool {
    exists|i: int| 0 <= i < paths.len() && same_path(#[trigger] paths[i], p)
}

/// `paths` with `p` behind them, where they do not hold it yet.
pub open spec fn with_path(paths: Seq<Seq<char>>, p: Seq<char>) -> Seq<Seq<char>> {
    if holds_path(paths, p) {
        paths
    } else {
        paths.push(p)
    }
}

/// `paths` with each of `more` behind them, in order, where they do not hold it yet.
pub open spec fn with_paths(paths: Seq<Seq<char>>, more: Seq<Seq<char>>) -> Seq<Seq<char>>
    decreases more.len(),
{
    if more.len() == 0 {
        paths
    } else {
        with_path(with_paths(paths, more.drop_last()), more.last())
    }
}

/// The first text for each path of `paths`, in order.
pub open spec fn first_of_each(paths: Seq<Seq<char>>) -> Seq<Seq<char>> {
    with_paths(Seq::empty(), paths)
}

/// No two texts of `paths` denote the same path.
pub open spec fn distinct_paths(paths: Seq<Seq<char>>) -> bool {
    forall|i: int, j: int| 0 <= i < j < paths.len() ==> !same_path(#[trigger] paths[i], #[trigger] paths[j])
}

/// Adding two lists of paths one after the other is adding them as one list.
pub proof fn lemma_with_paths_add(
    paths: Seq<Seq<char>>,
    first: Seq<Seq<char>>,
    second: Seq<Seq<char>>,
)
    ensures
        with_paths(paths, first + second) == with_paths(with_paths(paths, first), second),
    decreases second.len(),
{
    if second.len() == 0 {
        assert(first + second =~= first);
    } else {
        assert((first + second).drop_last() =~= first + second.drop_last());
        lemma_with_paths_add(paths, first, second.drop_last());
    }
}

/// Adding a list of one path is adding that path.
pub proof fn lemma_with_paths_one(paths: Seq<Seq<char>>, p: Seq<char>)
    ensures
        with_paths(paths, seq![p]) == with_path(paths, p),
{
    assert(seq![p].drop_last() =~= Seq::empty());
    assert(with_paths(paths, seq![p].drop_last()) == paths);
}

/// Adding paths to a list without repeats leaves it without repeats.
pub proof fn law_with_paths_keeps_distinct(paths: Seq<Seq<char>>, more: Seq<Seq<char>>)
    requires
        distinct_paths(paths),
    ensures
        distinct_paths(with_paths(paths, more)),
    decreases more.len(),
{
    if more.len() > 0 {
        law_with_paths_keeps_distinct(paths, more.drop_last());
    }
}

/// Adding paths keeps what was there in front, and every path that was added is then held.
pub proof fn law_with_paths_holds_all(paths: Seq<Seq<char>>, more: Seq<Seq<char>>)
    ensures
        paths.is_prefix_of(with_paths(paths, more)),
        forall|i: int| 0 <= i < more.len() ==> holds_path(with_paths(paths, more), #[trigger] more[i]),
    decreases more.len(),
{
    if more.len() > 0 {
        let before = with_paths(paths, more.drop_last());
        let after = with_paths(paths, more);
        law_with_paths_holds_all(paths, more.drop_last());
        assert forall|i: int| 0 <= i < more.len() implies holds_path(after, #[trigger] more[i]) by {
            if i < more.len() - 1 {
                assert(more.drop_last()[i] == more[i]);
                let k = choose|k: int|
                    0 <= k < before.len() && same_path(#[trigger] before[k], more[i]);
                assert(after[k] == before[k]);
            } else if !holds_path(before, more[i]) {
                assert(after[before.len() as int] == more[i]);
            }
        }
        assert(paths.is_prefix_of(after)) by {
            assert(after.take(paths.len() as int) =~= before.take(paths.len() as int));
        }
    }
}

/// The first texts of `paths` hold no path twice, hold every path of `paths`, and each of them
/// is a text of `paths` whose path no earlier text of `paths` denotes.
pub proof fn law_first_of_each(paths: Seq<Seq<char>>)
    ensures
        distinct_paths(first_of_each(paths)),
        forall|i: int| 0 <= i < paths.len() ==> holds_path(first_of_each(paths), #[trigger] paths[i]),
        forall|k: int|
            0 <= k < first_of_each(paths).len() ==> is_first_text(paths, #[trigger] first_of_each(paths)[k]),
{
    law_with_paths_keeps_distinct(Seq::empty(), paths);
    law_with_paths_holds_all(Seq::empty(), paths);
    lemma_first_texts(paths);
}

/// `p` is a text of `paths`, and no earlier text denotes the same path.
pub open spec fn is_first_text(paths: Seq<Seq<char>>, p: Seq<char>) -> bool {
    exists|i: int|
        0 <= i < paths.len() && #[trigger] paths[i] == p && !holds_path(paths.take(i), p)
}

proof fn lemma_first_texts(paths: Seq<Seq<char>>)
    ensures
        forall|k: int|
            0 <= k < first_of_each(paths).len() ==> is_first_text(paths, #[trigger] first_of_each(paths)[k]),
    decreases paths.len(),
{
    if paths.len() > 0 {
        let front = paths.drop_last();
        let before = first_of_each(front);
        let after = first_of_each(paths);
        lemma_first_texts(front);
        law_with_paths_holds_all(Seq::empty(), front);
        assert forall|k: int| 0 <= k < after.len() implies is_first_text(paths, #[trigger] after[k]) by {
            if k < before.len() {
                assert(after[k] == before[k]);
                let i = choose|i: int|
                    0 <= i < front.len() && #[trigger] front[i] == before[k] && !holds_path(
                        front.take(i),
                        before[k],
                    );
                assert(paths[i] == front[i]);
                assert(paths.take(i) =~= front.take(i));
            } else {
                let i = paths.len() - 1;
                assert(paths.take(i) =~= front);
                assert(paths[i] == after[k]);
                if holds_path(front, after[k]) {
                    let j = choose|j: int|
                        0 <= j < front.len() && same_path(#[trigger] front[j], after[k]);
                    assert(holds_path(before, front[j]));
                    let m = choose|m: int|
                        0 <= m < before.len() && same_path(#[trigger] before[m], front[j]);
                    assert(same_path(before[m], after[k]));
                }
            }
        }
    }
}

/// A path that a list holds in any spelling is not added again; any other one goes behind.
pub proof fn law_with_path(paths: Seq<Seq<char>>, p: Seq<char>)
    ensures
        (exists|i: int| 0 <= i < paths.len() && components_of(#[trigger] paths[i]) == components_of(p))
            ==> with_path(paths, p) == paths,
        (forall|i: int| 0 <= i < paths.len() ==> components_of(#[trigger] paths[i]) != components_of(p))
            ==> with_path(paths, p) == paths.push(p),
{
    if exists|i: int| 0 <= i < paths.len() && components_of(#[trigger] paths[i]) == components_of(p) {
        let i = choose|i: int|
            0 <= i < paths.len() && components_of(#[trigger] paths[i]) == components_of(p);
        assert(same_path(paths[i], p));
    }
}

/// The texts of `more` that are added to a list are new to it: each is a text of `more`, and has
/// other components than every text that stands before it in the outcome.
pub proof fn law_with_paths_adds_new_ones(paths: Seq<Seq<char>>, more: Seq<Seq<char>>)
    ensures
        paths.len() <= with_paths(paths, more).len(),
        forall|i: int| 0 <= i < paths.len() ==> #[trigger] with_paths(paths, more)[i] == paths[i],
        forall|k: int|
            paths.len() <= k < with_paths(paths, more).len() ==> more.contains(
                #[trigger] with_paths(paths, more)[k],
            ),
        forall|j: int, k: int|
            0 <= j < k && paths.len() <= k < with_paths(paths, more).len() ==> components_of(
                #[trigger] with_paths(paths, more)[j],
            ) != components_of(#[trigger] with_paths(paths, more)[k]),
        forall|i: int|
            0 <= i < more.len() ==> exists|k: int|
                0 <= k < with_paths(paths, more).len() && components_of(
                    #[trigger] with_paths(paths, more)[k],
                ) == components_of(#[trigger] more[i]),
    decreases more.len(),
{
    if more.len() > 0 {
        let front = more.drop_last();
        let before = with_paths(paths, front);
        let after = with_paths(paths, more);
        law_with_paths_adds_new_ones(paths, front);
        law_with_path(before, more.last());
        assert forall|i: int| 0 <= i < paths.len() implies #[trigger] after[i] == paths[i] by {
            assert(before[i] == paths[i]);
        }
        assert forall|k: int| paths.len() <= k < after.len() implies more.contains(
            #[trigger] after[k],
        ) by {
            if k < before.len() {
                assert(after[k] == before[k]);
                assert(front.contains(before[k]));
                let m = choose|m: int| 0 <= m < front.len() && front[m] == before[k];
                assert(more[m] == after[k]);
            } else {
                assert(more[more.len() - 1] == after[k]);
            }
        }
        assert forall|i: int| 0 <= i < more.len() implies exists|k: int|
            0 <= k < after.len() && components_of(#[trigger] after[k]) == components_of(
                #[trigger] more[i],
            ) by {
            if i < front.len() {
                assert(front[i] == more[i]);
                let k = choose|k: int|
                    0 <= k < before.len() && components_of(#[trigger] before[k]) == components_of(
                        front[i],
                    );
                assert(after[k] == before[k]);
            } else if forall|m: int|
                0 <= m < before.len() ==> components_of(#[trigger] before[m]) != components_of(
                    more[i],
                ) {
                assert(after[before.len() as int] == more[i]);
            } else {
                let k = choose|k: int|
                    0 <= k < before.len() && components_of(#[trigger] before[k]) == components_of(
                        more[i],
                    );
                assert(after[k] == before[k]);
            }
        }
        assert forall|j: int, k: int|
            0 <= j < k && paths.len() <= k < after.len() implies components_of(#[trigger] after[j])
            != components_of(#[trigger] after[k]) by {
            assert(after[j] == before[j]);
            if k < before.len() {
                assert(after[k] == before[k]);
            }
        }
    } else {
        assert(with_paths(paths, more) == paths);
    }
}

/// Of the texts with the same components exactly the first is kept, and what is kept stands in
/// the order that it had.
pub proof fn law_first_of_each_keeps_order(paths: Seq<Seq<char>>, k: int, l: int)
    requires
        0 <= k < l < first_of_each(paths).len(),
    ensures
        exists|i: int, j: int|
            {
                &&& 0 <= i < j < paths.len()
                &&& #[trigger] paths[i] == first_of_each(paths)[k]
                &&& #[trigger] paths[j] == first_of_each(paths)[l]
                &&& forall|m: int|
                    0 <= m < j ==> components_of(#[trigger] paths[m]) != components_of(paths[j])
            },
    decreases paths.len(),
{
    if paths.len() > 0 {
        let front = paths.drop_last();
        let before = first_of_each(front);
        let after = first_of_each(paths);
        assert(after[k] == before[k]);
        if l < before.len() {
            assert(after[l] == before[l]);
            law_first_of_each_keeps_order(front, k, l);
            let (i, j): (int, int) = choose|i: int, j: int|
                {
                    &&& 0 <= i < j < front.len()
                    &&& #[trigger] front[i] == before[k]
                    &&& #[trigger] front[j] == before[l]
                    &&& forall|m: int|
                        0 <= m < j ==> components_of(#[trigger] front[m]) != components_of(front[j])
                };
            assert(paths[i] == front[i]);
            assert(paths[j] == front[j]);
            assert forall|m: int| 0 <= m < j implies components_of(#[trigger] paths[m])
                != components_of(paths[j]) by {
                assert(front[m] == paths[m]);
            }
        } else {
            lemma_first_texts(front);
            assert(is_first_text(front, before[k]));
            let i = choose|i: int|
                0 <= i < front.len() && #[trigger] front[i] == before[k] && !holds_path(
                    front.take(i),
                    before[k],
                );
            let j = paths.len() - 1;
            assert(paths[i] == front[i]);
            assert(paths[j] == after[l]);
            law_with_paths_holds_all(Seq::empty(), front);
            assert forall|m: int| 0 <= m < j implies components_of(#[trigger] paths[m])
                != components_of(paths[j]) by {
                assert(front[m] == paths[m]);
                assert(holds_path(before, front[m]));
                let n = choose|n: int|
                    0 <= n < before.len() && same_path(#[trigger] before[n], front[m]);
                assert(!same_path(before[n], after[l]));
            }
        }
    }
}

/// Paths in the order in which they were added, each once.
pub struct PathList {
    paths: Vec<String>,
    /// The components of each path.
    keys: Vec<Vec<String>>,
}

impl View for PathList {
    type V = Seq<Seq<char>>;

    closed spec fn view(&self) -> Seq<Seq<char>> {
        texts(self.paths@)
    }
}

impl PathList {
    /// Each path has its components beside it, and none occurs twice.
    pub closed spec fn wf(&self) -> bool {
        &&& self.keys@.len() == self.paths@.len()
        &&& forall|i: int|
            0 <= i < self.paths@.len() ==> texts((#[trigger] self.keys@[i])@) == components_of(
                self.paths@[i]@,
            )
        &&& distinct_paths(self@)
    }

    /// A list that holds nothing.
    pub fn new() -> (list: Self)
        ensures
            list.wf(),
            list@ == Seq::<Seq<char>>::empty(),
    {
        let list = PathList { paths: Vec::new(), keys: Vec::new() };
        assert(list@ =~= Seq::empty());
        list
    }

    /// Appends `path` where the list does not hold it yet, and says whether it did.
    pub fn insert(&mut self, path: String) -> (inserted: bool)
        requires
            old(self).wf(),
        ensures
            final(self).wf(),
            final(self)@ == with_path(old(self)@, path@),
            inserted == !holds_path(old(self)@, path@),
            inserted ==> final(self)@ == old(self)@.push(path@),
            !inserted ==> final(self)@ == old(self)@,
    {
        let key = components(path.as_str());
        let mut i: usize = 0;
        while i < self.keys.len()
            invariant
                *self == *old(self),
                self.wf(),
                i <= self.keys@.len(),
                texts(key@) == components_of(path@),
                forall|j: int| 0 <= j < i ==> !same_path(#[trigger] self@[j], path@),
            decreases self.keys@.len() - i,
        {
            assert(texts(self.keys@[i as int]@) == components_of(self@[i as int]));
            if same_texts(&self.keys[i], &key) {
                return false;
            }
            i = i + 1;
        }
        self.paths.push(path);
        self.keys.push(key);
        assert(self@ =~= old(self)@.push(path@));
        true
    }

    /// The paths, in order.
    pub fn into_paths(self) -> (paths: Vec<String>)
        requires
            self.wf(),
        ensures
            texts(paths@) == self@,
            distinct_paths(texts(paths@)),
    {
        self.paths
    }
}

} // verus!
