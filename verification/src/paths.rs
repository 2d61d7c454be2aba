//! Slash-separated paths as text: the names they are made of, joining, and parents.
//!
//! Two texts denote the same path where they are made of the same components, so `/a/b`,
//! `/a//b`, `/a/./b` and `/a/b/` are one path.
//!
//! These are the Unix rules, as `std::path` has them on Unix: `/` alone separates, and a path
//! is absolute where it starts with one. A Windows text such as `C:\r\a.rs` is then a single
//! relative name, whose backslashes and drive letter mean nothing, and joining puts it behind
//! the base. So the rules hold where the paths come from a Unix machine; the drives, shares
//! and backslashes of Windows paths are not read.

use vstd::prelude::*;

verus! {

/// The texts that a vector of strings holds.
pub open spec fn texts(v: Seq<String>) -> Seq<Seq<char>> {
    v.map_values(|s: String| s@)
}

/// The stretches of `p` between its slashes, empty ones included.
pub open spec fn pieces(p: Seq<char>) -> Seq<Seq<char>>
    decreases p.len(),
{
    if p.len() == 0 {
        seq![Seq::empty()]
    } else {
        let before = pieces(p.drop_last());
        if p.last() == '/' {
            before.push(Seq::empty())
        } else {
            before.drop_last().push(before.last().push(p.last()))
        }
    }
}

/// A piece that names something: neither empty nor a dot.
pub open spec fn is_name(piece: Seq<char>) -> bool {
    piece.len() > 0 && piece != seq!['.']
}

/// A path is absolute where it starts at the root.
pub open spec fn is_absolute_path(p: Seq<char>) -> bool {
    p.len() > 0 && p[0] == '/'
}

/// Whether the first piece of a relative path is a dot.
pub open spec fn starts_with_dot(p: Seq<char>) -> bool {
    p.len() > 0 && p[0] == '.' && (p.len() > 1 ==> p[1] == '/')
}

/// What a path starts with before its names: the root, a dot, or nothing.
pub open spec fn lead(p: Seq<char>) -> Seq<Seq<char>> {
    if is_absolute_path(p) {
        seq![seq!['/']]
    } else if starts_with_dot(p) {
        seq![seq!['.']]
    } else {
        Seq::empty()
    }
}

/// The components of a path: the root where it is absolute, the dot that it starts with, and
/// its names. Repeated slashes, a trailing slash and any other dot leave no component.
pub open spec fn components_of(p: Seq<char>) -> Seq<Seq<char>> {
    lead(p) + pieces(p).filter(|piece: Seq<char>| is_name(piece))
}

/// Whether two texts denote the same path.
pub open spec fn same_path(a: Seq<char>, b: Seq<char>) -> bool {
    components_of(a) == components_of(b)
}

/// `rel` seen from `base`: `rel` itself where it is absolute, else the two with one slash
/// between them.
pub open spec fn joined(base: Seq<char>, rel: Seq<char>) -> Seq<char> {
    if is_absolute_path(rel) {
        rel
    } else if base.len() == 0 || base.last() == '/' {
        base + rel
    } else {
        base.push('/') + rel
    }
}

/// Every path has a parent but the root and one without components.
pub open spec fn has_parent(p: Seq<char>) -> bool {
    &&& components_of(p).len() > 0
    &&& is_absolute_path(p) ==> components_of(p).len() > 1
}

/// The parent of `p` is the shortest start of `p` that is made of all its components but the
/// last.
pub open spec fn is_parent(p: Seq<char>, d: Seq<char>) -> bool {
    &&& has_parent(p)
    &&& d.is_prefix_of(p)
    &&& components_of(d) == components_of(p).drop_last()
    &&& forall|e: Seq<char>| #[trigger]
        e.is_prefix_of(p) && components_of(e) == components_of(p).drop_last() ==> d.len()
            <= e.len()
}

/// The parent of `p`, where it has one.
pub open spec fn parent_of(p: Seq<char>) -> Option<Seq<char>> {
    if has_parent(p) {
        Some(choose|d: Seq<char>| is_parent(p, d))
    } else {
        None
    }
}

/// How the components change as a path grows by one character.
enum Growth {
    /// They stay as they are.
    Same,
    /// One more follows them.
    Added,
    /// The last one grows by the character.
    Extended,
}

spec fn growth(p: Seq<char>, c: char) -> Growth {
    let piece = pieces(p).last();
    if c == '/' {
        if p.len() == 0 {
            Growth::Added
        } else {
            Growth::Same
        }
    } else if piece.len() == 0 {
        if c == '.' && p.len() > 0 {
            Growth::Same
        } else {
            Growth::Added
        }
    } else if piece == seq!['.'] && p.len() > 1 {
        Growth::Added
    } else {
        Growth::Extended
    }
}

proof fn lemma_pieces_push(p: Seq<char>, c: char)
    ensures
        pieces(p).len() > 0,
        c == '/' ==> pieces(p.push(c)) == pieces(p).push(Seq::empty()),
        c != '/' ==> pieces(p.push(c)) == pieces(p).drop_last().push(pieces(p).last().push(c)),
    decreases p.len(),
{
    assert(p.push(c).drop_last() =~= p);
    if p.len() > 0 {
        lemma_pieces_push(p.drop_last(), p.last());
    }
}

/// The last piece is the end of the path; a path that is a single piece is that piece.
proof fn lemma_last_piece(p: Seq<char>)
    ensures
        pieces(p).len() > 0,
        pieces(p).last().is_suffix_of(p),
        p.len() > 0 && pieces(p).last() == p ==> pieces(p) == seq![p],
        p.len() == 1 && p[0] != '/' ==> pieces(p) == seq![p],
    decreases p.len(),
{
    if p.len() > 0 {
        let q = p.drop_last();
        lemma_last_piece(q);
        lemma_pieces_push(q, p.last());
        assert(q.push(p.last()) =~= p);
        if p.last() != '/' {
            let x = pieces(q).last();
            assert(x.push(p.last()) =~= p.subrange(p.len() - x.len() - 1, p.len() as int));
            if p.len() == 1 {
                assert(x.push(p.last()) =~= p);
            }
            if x.push(p.last()) == p {
                assert(x =~= q);
                if q.len() == 0 {
                    assert(pieces(q) =~= seq![q]);
                }
                assert(pieces(p) =~= seq![p]);
            }
        }
    }
}

proof fn lemma_components_push(p: Seq<char>, c: char)
    ensures
        match growth(p, c) {
            Growth::Same => components_of(p.push(c)) == components_of(p),
            Growth::Added => components_of(p.push(c)).len() == components_of(p).len() + 1
                && components_of(p.push(c)).drop_last() == components_of(p),
            Growth::Extended => components_of(p).len() > 0 && components_of(p.push(c))
                == components_of(p).drop_last().push(components_of(p).last().push(c)),
        },
{
    let q = p.push(c);
    let named = |piece: Seq<char>| is_name(piece);
    lemma_pieces_push(p, c);
    lemma_last_piece(p);
    let old_pieces = pieces(p);
    let new_pieces = pieces(q);
    let kept = old_pieces.drop_last().filter(named);
    reveal(Seq::filter);
    assert(old_pieces.filter(named) == if is_name(old_pieces.last()) {
        kept.push(old_pieces.last())
    } else {
        kept
    });
    assert(new_pieces.drop_last() =~= if c == '/' {
        old_pieces
    } else {
        old_pieces.drop_last()
    });
    assert(new_pieces.filter(named) == if is_name(new_pieces.last()) {
        new_pieces.drop_last().filter(named).push(new_pieces.last())
    } else {
        new_pieces.drop_last().filter(named)
    });
    if p.len() == 0 {
        assert(old_pieces =~= seq![Seq::<char>::empty()]);
        assert(kept =~= Seq::empty());
        if c == '.' {
            assert(new_pieces.last() =~= seq!['.']);
        }
    } else {
        assert(q[0] == p[0]);
    }
    if c != '/' {
        let x = old_pieces.last();
        assert(x.push(c).drop_last() =~= x);
        if x.len() == 0 {
            if c == '.' {
                assert(x.push(c) =~= seq!['.']);
            } else {
                assert(x.push(c)[0] == c);
            }
        } else {
            assert(x.push(c).len() > 1);
        }
        if p.len() == 1 && x.len() > 0 {
            assert(x =~= p);
        }
    }
    match growth(p, c) {
        Growth::Same => {
            assert(components_of(q) =~= components_of(p));
        },
        Growth::Added => {
            assert(components_of(q).drop_last() =~= components_of(p));
        },
        Growth::Extended => {
            let x = old_pieces.last();
            if x == seq!['.'] {
                assert(p =~= seq!['.']);
                assert(components_of(p) =~= seq![seq!['.']]);
                assert(q[1] == c);
                assert(lead(q) =~= Seq::empty());
            } else {
                if p.len() == 1 {
                    assert(!(p =~= seq!['.']));
                } else {
                    assert(q[1] == p[1]);
                }
                assert(lead(q) =~= lead(p));
            }
            assert(components_of(q) =~= components_of(p).drop_last().push(
                components_of(p).last().push(c),
            ));
        },
    }
}

/// The components of every start of `p`, from the empty one to `p` itself.
spec fn history(p: Seq<char>) -> Seq<Seq<Seq<char>>> {
    Seq::new((p.len() + 1) as nat, |j: int| components_of(p.take(j)))
}

/// What is known of a path whose starts have the components `h`: `fit` is the shortest start
/// with all its components, `cut` the shortest with all but the last, and no start has more
/// components, nor as many with a longer last one.
#[verifier::opaque]
spec fn is_cut(h: Seq<Seq<Seq<char>>>, fit: int, cut: int) -> bool {
    let all = h.last();
    &&& 0 <= fit < h.len()
    &&& h[fit] == all
    &&& forall|j: int| 0 <= j < fit ==> #[trigger] h[j] != all
    &&& all.len() > 0 ==> {
        &&& 0 <= cut < h.len()
        &&& h[cut] == all.drop_last()
        &&& forall|j: int| 0 <= j < cut ==> #[trigger] h[j] != all.drop_last()
    }
    &&& forall|j: int|
        0 <= j < h.len() ==> {
            ||| (#[trigger] h[j]).len() < all.len()
            ||| h[j].len() == all.len() && (all.len() > 0 ==> h[j].last().len()
                <= all.last().len())
        }
}

proof fn lemma_history_push(p: Seq<char>, c: char)
    ensures
        history(p.push(c)) == history(p).push(components_of(p.push(c))),
        history(p).last() == components_of(p),
{
    let q = p.push(c);
    assert(p.take(p.len() as int) =~= p);
    assert(q.take(q.len() as int) =~= q);
    assert forall|j: int| 0 <= j <= p.len() implies #[trigger] q.take(j) == p.take(j) by {
        assert(q.take(j) =~= p.take(j));
    }
    assert(history(q) =~= history(p).push(components_of(q)));
}

proof fn lemma_cut_empty()
    ensures
        is_cut(history(Seq::empty()), 0, 0),
        components_of(Seq::empty()).len() == 0,
{
    let e = Seq::<char>::empty();
    reveal(is_cut);
    reveal_with_fuel(Seq::filter, 2);
    assert(pieces(e).drop_last() =~= Seq::empty());
    assert(components_of(e) =~= Seq::empty());
    assert(e.take(0) =~= e);
}

proof fn lemma_cut_same(h: Seq<Seq<Seq<char>>>, fit: int, cut: int, next: Seq<Seq<char>>)
    requires
        h.len() > 0,
        is_cut(h, fit, cut),
        next == h.last(),
    ensures
        is_cut(h.push(next), fit, cut),
{
    reveal(is_cut);
}

proof fn lemma_cut_added(h: Seq<Seq<Seq<char>>>, fit: int, cut: int, next: Seq<Seq<char>>)
    requires
        h.len() > 0,
        is_cut(h, fit, cut),
        next.len() == h.last().len() + 1,
        next.drop_last() == h.last(),
    ensures
        is_cut(h.push(next), h.len() as int, fit),
{
    reveal(is_cut);
    assert forall|j: int| 0 <= j < h.len() implies #[trigger] h.push(next)[j] != next by {
        assert(h.push(next)[j] == h[j]);
        assert(h[j].len() <= h.last().len());
    }
}

proof fn lemma_cut_extended(
    h: Seq<Seq<Seq<char>>>,
    fit: int,
    cut: int,
    next: Seq<Seq<char>>,
    c: char,
)
    requires
        h.len() > 0,
        is_cut(h, fit, cut),
        h.last().len() > 0,
        next == h.last().drop_last().push(h.last().last().push(c)),
    ensures
        is_cut(h.push(next), h.len() as int, cut),
{
    reveal(is_cut);
    let all = h.last();
    assert(next.drop_last() =~= all.drop_last());
    assert(next.last().len() == all.last().len() + 1);
    assert forall|j: int| 0 <= j < h.len() implies #[trigger] h.push(next)[j] != next by {
        assert(h.push(next)[j] == h[j]);
        assert(h[j].len() < all.len() || h[j].last().len() <= all.last().len());
    }
}

proof fn lemma_cut_push(p: Seq<char>, c: char, fit: int, cut: int)
    requires
        is_cut(history(p), fit, cut),
    ensures
        match growth(p, c) {
            Growth::Same => is_cut(history(p.push(c)), fit, cut),
            Growth::Added => is_cut(history(p.push(c)), p.len() as int + 1, fit),
            Growth::Extended => is_cut(history(p.push(c)), p.len() as int + 1, cut),
        },
{
    let next = components_of(p.push(c));
    lemma_components_push(p, c);
    lemma_history_push(p, c);
    match growth(p, c) {
        Growth::Same => lemma_cut_same(history(p), fit, cut, next),
        Growth::Added => lemma_cut_added(history(p), fit, cut, next),
        Growth::Extended => lemma_cut_extended(history(p), fit, cut, next, c),
    }
}

proof fn lemma_cut_exists(p: Seq<char>)
    ensures
        exists|fit: int, cut: int| is_cut(history(p), fit, cut),
    decreases p.len(),
{
    if p.len() == 0 {
        lemma_cut_empty();
        assert(p =~= Seq::empty());
        assert(is_cut(history(p), 0, 0));
    } else {
        let q = p.drop_last();
        lemma_cut_exists(q);
        let (fit, cut): (int, int) = choose|fit: int, cut: int| is_cut(history(q), fit, cut);
        lemma_cut_push(q, p.last(), fit, cut);
        assert(q.push(p.last()) =~= p);
    }
}

proof fn lemma_cut_is_parent(p: Seq<char>, fit: int, cut: int)
    requires
        is_cut(history(p), fit, cut),
        has_parent(p),
    ensures
        is_parent(p, p.take(cut)),
        parent_of(p) == Some(p.take(cut)),
{
    reveal(is_cut);
    lemma_history_push(p, '/');
    assert forall|e: Seq<char>| #[trigger]
        e.is_prefix_of(p) && components_of(e) == components_of(p).drop_last() implies cut
        <= e.len() by {
        assert(p.take(e.len() as int) =~= e);
        assert(history(p)[e.len() as int] == components_of(e));
    }
    assert(p.take(cut).is_prefix_of(p));
    let d = choose|d: Seq<char>| is_parent(p, d);
    assert(is_parent(p, p.take(cut)));
    assert(d.is_prefix_of(p));
    assert(d.len() == cut);
    assert(d =~= p.take(cut));
}

/// Every path but the root and one without components has a parent, and the parent is made of
/// its components without the last.
pub proof fn law_parent_drops_last_component(p: Seq<char>)
    ensures
        parent_of(p) is Some <==> has_parent(p),
        parent_of(p) matches Some(d) ==> is_parent(p, d),
{
    if has_parent(p) {
        lemma_cut_exists(p);
        let (fit, cut): (int, int) = choose|fit: int, cut: int| is_cut(history(p), fit, cut);
        lemma_cut_is_parent(p, fit, cut);
    }
}

/// `p`, its parent, the parent of that, and so on.
pub open spec fn ancestors(p: Seq<char>) -> Seq<Seq<char>>
    decreases components_of(p).len(),
{
    match parent_of(p) {
        Some(d) => {
            proof {
                law_parent_drops_last_component(p);
            }
            seq![p] + ancestors(d)
        },
        None => seq![p],
    }
}

/// Whether `path` starts at the root.
pub fn is_absolute(path: &str) -> (absolute: bool)
    ensures
        absolute == is_absolute_path(path@),
{
    path.unicode_len() > 0 && path.get_char(0) == '/'
}

/// `rel` seen from `base`.
pub fn join(base: &str, rel: &str) -> (path: String)
    ensures
        path@ == joined(base@, rel@),
{
    if is_absolute(rel) {
        return rel.to_owned();
    }
    let n: usize = base.unicode_len();
    let mut path: String = base.to_owned();
    if n > 0 && base.get_char(n - 1) != '/' {
        proof {
            reveal_strlit("/");
        }
        path.append("/");
        assert(path@ =~= base@.push('/'));
    }
    path.append(rel);
    path
}

/// The parent of `path`, where it has one.
pub fn parent(path: &str) -> (dir: Option<&str>)
    ensures
        match dir {
            Some(d) => parent_of(path@) == Some(d@),
            None => parent_of(path@) is None,
        },
{
    let ghost p = path@;
    let n: usize = path.unicode_len();
    let mut i: usize = 0;
    let mut depth: usize = 0;
    let mut fit: usize = 0;
    let mut cut: usize = 0;
    let mut piece_len: usize = 0;
    let mut piece_is_dot: bool = false;
    proof {
        lemma_cut_empty();
        assert(p.take(0) =~= Seq::empty());
        lemma_last_piece(p.take(0));
    }
    for c in it: path.chars()
        invariant
            it.seq() == p,
            p == path@,
            n == p.len(),
            i == it.index(),
            i <= n,
            depth <= i,
            depth == components_of(p.take(i as int)).len(),
            is_cut(history(p.take(i as int)), fit as int, cut as int),
            fit <= n,
            cut <= n,
            piece_len <= i,
            piece_len == pieces(p.take(i as int)).last().len(),
            piece_is_dot == (pieces(p.take(i as int)).last() == seq!['.']),
    {
        let ghost q = p.take(i as int);
        let ghost x = pieces(q).last();
        proof {
            assert(q.push(c) =~= p.take(i + 1));
            lemma_components_push(q, c);
            lemma_cut_push(q, c, fit as int, cut as int);
            lemma_pieces_push(q, c);
            if c != '/' {
                assert(x.push(c).drop_last() =~= x);
                if x.len() == 0 && c == '.' {
                    assert(x.push(c) =~= seq!['.']);
                }
                if x.push(c) == seq!['.'] {
                    assert(x.push(c).last() == '.');
                    assert(x.push(c).len() == 1);
                }
            }
        }
        if c == '/' {
            if i == 0 {
                depth = depth + 1;
                cut = fit;
                fit = i + 1;
            }
            piece_len = 0;
            piece_is_dot = false;
        } else {
            if piece_len == 0 {
                if c != '.' || i == 0 {
                    depth = depth + 1;
                    cut = fit;
                    fit = i + 1;
                }
            } else if piece_is_dot && i > 1 {
                depth = depth + 1;
                cut = fit;
                fit = i + 1;
            } else {
                fit = i + 1;
            }
            piece_is_dot = piece_len == 0 && c == '.';
            piece_len = piece_len + 1;
        }
        i = i + 1;
    }
    assert(p.take(n as int) =~= p);
    if depth == 0 || (depth == 1 && is_absolute(path)) {
        return None;
    }
    proof {
        lemma_cut_is_parent(p, fit as int, cut as int);
    }
    assert(p.subrange(0, cut as int) =~= p.take(cut as int));
    Some(path.substring_char(0, cut))
}

/// The components of `path`, in order.
pub fn components(path: &str) -> (names: Vec<String>)
    ensures
        texts(names@) == components_of(path@),
{
    let ghost p = path@;
    let ghost named = |piece: Seq<char>| is_name(piece);
    let n: usize = path.unicode_len();
    let mut names: Vec<String> = Vec::new();
    proof {
        reveal_strlit("/");
        reveal_strlit(".");
    }
    if is_absolute(path) {
        names.push("/".to_owned());
        assert("/"@ =~= seq!['/']);
    } else if n > 0 && path.get_char(0) == '.' && (n == 1 || path.get_char(1) == '/') {
        names.push(".".to_owned());
        assert("."@ =~= seq!['.']);
    }
    assert(texts(names@) =~= lead(p));
    let mut start: usize = 0;
    let mut i: usize = 0;
    proof {
        assert(p.take(0) =~= Seq::empty());
        assert(p.subrange(0, 0) =~= Seq::empty());
        lemma_last_piece(p.take(0));
        reveal(Seq::filter);
        assert(pieces(p.take(0)).drop_last().filter(named) =~= Seq::empty());
        assert(texts(names@) =~= lead(p) + pieces(p.take(0)).drop_last().filter(named));
    }
    for c in it: path.chars()
        invariant
            it.seq() == p,
            p == path@,
            n == p.len(),
            i == it.index(),
            named == (|piece: Seq<char>| is_name(piece)),
            start <= i <= n,
            pieces(p.take(i as int)).last() == p.subrange(start as int, i as int),
            texts(names@) == lead(p) + pieces(p.take(i as int)).drop_last().filter(named),
    {
        let ghost q = p.take(i as int);
        let ghost last = pieces(q).last();
        proof {
            assert(q.push(c) =~= p.take(i + 1));
            lemma_pieces_push(q, c);
            assert(p.subrange(start as int, i + 1) =~= last.push(c));
            assert(p.subrange(i + 1, i + 1) =~= Seq::empty());
            reveal(Seq::filter);
        }
        if c == '/' {
            push_name(path, start, i, &mut names);
            start = i + 1;
            assert(pieces(q.push(c)).drop_last() =~= pieces(q));
            assert(texts(names@) =~= lead(p) + pieces(q).filter(named));
        } else {
            assert(pieces(q.push(c)).drop_last() =~= pieces(q).drop_last());
        }
        i = i + 1;
    }
    proof {
        assert(p.take(n as int) =~= p);
        lemma_last_piece(p);
        reveal(Seq::filter);
    }
    push_name(path, start, n, &mut names);
    assert(texts(names@) =~= components_of(p));
    names
}

/// Appends the piece of `path` from `start` to `end` to `names`, where it is a name.
fn push_name(path: &str, start: usize, end: usize, names: &mut Vec<String>)
    requires
        start <= end <= path@.len(),
    ensures
        texts(final(names)@) == {
            let piece = path@.subrange(start as int, end as int);
            if is_name(piece) {
                texts(old(names)@).push(piece)
            } else {
                texts(old(names)@)
            }
        },
{
    let ghost piece = path@.subrange(start as int, end as int);
    proof {
        if piece == seq!['.'] {
            assert(piece[0] == '.');
            assert(piece.len() == 1);
        }
        if piece.len() == 1 && path@[start as int] == '.' {
            assert(piece =~= seq!['.']);
        }
    }
    if end > start && !(end - start == 1 && path.get_char(start) == '.') {
        names.push(path.substring_char(start, end).to_owned());
        assert(texts(names@) =~= texts(old(names)@).push(piece));
    }
}

/// Whether two lists hold the same texts in the same order.
pub fn same_texts(a: &Vec<String>, b: &Vec<String>) -> (same: bool)
    ensures
        same == (texts(a@) == texts(b@)),
{
    if a.len() != b.len() {
        assert(texts(a@).len() != texts(b@).len());
        return false;
    }
    let mut i: usize = 0;
    while i < a.len()
        invariant
            i <= a.len(),
            a.len() == b.len(),
            forall|j: int| 0 <= j < i ==> #[trigger] texts(a@)[j] == texts(b@)[j],
        decreases a.len() - i,
    {
        if a[i] != b[i] {
            assert(texts(a@)[i as int] != texts(b@)[i as int]);
            return false;
        }
        i = i + 1;
    }
    assert(texts(a@) =~= texts(b@));
    true
}

/// A list of strings and the list of their texts go together, place by place.
pub proof fn law_texts(v: Seq<String>)
    ensures
        texts(v).len() == v.len(),
        forall|i: int| 0 <= i < v.len() ==> #[trigger] texts(v)[i] == v[i]@,
{
}

/// Pieces with one slash between each two of them.
pub open spec fn glued(ps: Seq<Seq<char>>) -> Seq<char>
    decreases ps.len(),
{
    if ps.len() == 0 {
        Seq::empty()
    } else if ps.len() == 1 {
        ps[0]
    } else {
        glued(ps.drop_last()) + seq!['/'] + ps.last()
    }
}

/// The pieces of a path hold no slash, and with slashes between them they are the path again.
pub proof fn law_pieces_make_the_path(p: Seq<char>)
    ensures
        pieces(p).len() > 0,
        glued(pieces(p)) == p,
        forall|i: int| 0 <= i < pieces(p).len() ==> !(#[trigger] pieces(p)[i]).contains('/'),
    decreases p.len(),
{
    if p.len() == 0 {
        assert(glued(pieces(p)) =~= p);
    } else {
        let q = p.drop_last();
        let c = p.last();
        let ps = pieces(q);
        law_pieces_make_the_path(q);
        lemma_pieces_push(q, c);
        assert(q.push(c) =~= p);
        if c == '/' {
            let next = ps.push(Seq::empty());
            assert(next.drop_last() =~= ps);
            assert(glued(next) =~= q.push('/'));
        } else {
            let last = ps.last();
            let next = ps.drop_last().push(last.push(c));
            assert(next.drop_last() =~= ps.drop_last());
            if ps.len() == 1 {
                assert(glued(next) =~= q.push(c));
            } else {
                assert(glued(next) =~= (glued(ps.drop_last()) + seq!['/'] + last).push(c));
            }
            assert(!last.push(c).contains('/')) by {
                assert(!ps[ps.len() - 1].contains('/'));
                if last.push(c).contains('/') {
                    let k = choose|k: int| 0 <= k < last.push(c).len() && last.push(c)[k] == '/';
                    assert(last[k] == '/');
                }
            }
        }
    }
}

proof fn lemma_pieces_of_piece(piece: Seq<char>)
    requires
        !piece.contains('/'),
    ensures
        pieces(piece) == seq![piece],
    decreases piece.len(),
{
    if piece.len() == 0 {
        assert(piece =~= Seq::empty());
    } else {
        let front = piece.drop_last();
        assert(piece[piece.len() - 1] != '/');
        assert forall|k: int| 0 <= k < front.len() implies front[k] != '/' by {
            assert(piece[k] != '/');
        }
        lemma_pieces_of_piece(front);
        lemma_pieces_push(front, piece.last());
        assert(piece.last() != '/');
        assert(front.push(piece.last()) =~= piece);
        assert(pieces(front).last() == front);
        assert(pieces(piece) =~= seq![piece]);
    }
}

/// Behind a slash the pieces start afresh.
proof fn lemma_pieces_behind_slash(base: Seq<char>, rel: Seq<char>)
    requires
        base.len() > 0,
        base.last() == '/',
    ensures
        pieces(base + rel) == pieces(base).drop_last() + pieces(rel),
        pieces(base).last() == Seq::<char>::empty(),
    decreases rel.len(),
{
    lemma_pieces_push(base.drop_last(), '/');
    assert(base.drop_last().push('/') =~= base);
    if rel.len() == 0 {
        assert(base + rel =~= base);
        assert(pieces(base) =~= pieces(base).drop_last() + pieces(rel));
    } else {
        let front = rel.drop_last();
        let c = rel.last();
        lemma_pieces_behind_slash(base, front);
        assert((base + front).push(c) =~= base + rel);
        assert(front.push(c) =~= rel);
        lemma_pieces_push(base + front, c);
        lemma_pieces_push(front, c);
        let head = pieces(base).drop_last();
        let ps = pieces(front);
        assert((head + ps).last() == ps.last());
        assert((head + ps).drop_last() =~= head + ps.drop_last());
        assert(pieces(base + rel) =~= head + pieces(rel));
    }
}

/// A text without a slash is its only component, or none where it is empty.
pub proof fn law_components_of_one_piece(piece: Seq<char>)
    requires
        !piece.contains('/'),
    ensures
        piece.len() == 0 ==> components_of(piece) == Seq::<Seq<char>>::empty(),
        piece.len() > 0 ==> components_of(piece) == seq![piece],
{
    lemma_pieces_of_piece(piece);
    reveal_with_fuel(Seq::filter, 2);
    assert(seq![piece].drop_last() =~= Seq::empty());
    if piece.len() > 0 {
        assert(piece[0] != '/');
        if piece.len() > 1 {
            assert(piece[1] != '/');
        }
        if starts_with_dot(piece) {
            assert(piece =~= seq!['.']);
        }
        if piece == seq!['.'] {
            assert(piece[0] == '.');
        }
        assert(components_of(piece) =~= seq![piece]);
    } else {
        assert(components_of(piece) =~= Seq::empty());
    }
}

/// A slash and a piece behind a path add that piece as a component, and nothing where the piece
/// is empty or a dot. A slash before everything is the root.
pub proof fn law_components_of_one_more_piece(p: Seq<char>, piece: Seq<char>)
    requires
        !piece.contains('/'),
    ensures
        components_of(p + seq!['/'] + piece) == (if p.len() == 0 {
            seq![seq!['/']]
        } else {
            components_of(p)
        }) + (if piece.len() == 0 || piece == seq!['.'] {
            Seq::<Seq<char>>::empty()
        } else {
            seq![piece]
        }),
{
    let base = p + seq!['/'];
    let whole = base + piece;
    let named = |x: Seq<char>| is_name(x);
    lemma_pieces_behind_slash(base, piece);
    lemma_pieces_of_piece(piece);
    lemma_pieces_push(p, '/');
    assert(p.push('/') =~= base);
    assert(pieces(base).drop_last() =~= pieces(p));
    assert(pieces(whole) =~= pieces(p).push(piece));
    assert(pieces(whole).drop_last() =~= pieces(p));
    reveal_with_fuel(Seq::filter, 2);
    if p.len() == 0 {
        assert(pieces(p).drop_last() =~= Seq::empty());
        assert(pieces(p).filter(named) =~= Seq::empty());
        assert(whole[0] == '/');
        assert(lead(whole) =~= seq![seq!['/']]);
    } else {
        assert(whole[0] == p[0]);
        assert(whole[1] == (if p.len() > 1 {
            p[1]
        } else {
            '/'
        }));
        assert(lead(whole) =~= lead(p));
    }
    if piece.len() == 0 || piece == seq!['.'] {
        assert(components_of(whole) =~= lead(whole) + pieces(p).filter(named));
    } else {
        assert(components_of(whole) =~= lead(whole) + pieces(p).filter(named) + seq![piece]);
    }
}

/// A path without a leading slash, seen from a base, puts its text behind the base, with one
/// slash between where the base does not end in one. One with a leading slash stays as it is.
pub proof fn law_joined_text(base: Seq<char>, rel: Seq<char>)
    ensures
        rel.len() > 0 && rel[0] == '/' ==> joined(base, rel) == rel,
        !(rel.len() > 0 && rel[0] == '/') ==> {
            let between: Seq<char> = if base.len() == 0 || base[base.len() - 1] == '/' {
                Seq::empty()
            } else {
                seq!['/']
            };
            joined(base, rel) == base + between + rel
        },
{
    if !(rel.len() > 0 && rel[0] == '/') {
        let between: Seq<char> = if base.len() == 0 || base[base.len() - 1] == '/' {
            Seq::empty()
        } else {
            seq!['/']
        };
        assert(joined(base, rel) =~= base + between + rel);
    }
}

/// Seen from a base, a relative path is made of the base's components and its own, without the
/// dot that it may start with.
pub proof fn law_joined_components(base: Seq<char>, rel: Seq<char>)
    requires
        base.len() > 0,
        rel.len() > 0 ==> rel[0] != '/',
    ensures
        rel.len() > 0 && rel[0] == '.' && (rel.len() == 1 || rel[1] == '/') ==> components_of(
            joined(base, rel),
        ) == components_of(base) + components_of(rel).drop_first(),
        !(rel.len() > 0 && rel[0] == '.' && (rel.len() == 1 || rel[1] == '/')) ==> components_of(
            joined(base, rel),
        ) == components_of(base) + components_of(rel),
{
    let named = |x: Seq<char>| is_name(x);
    let slashed = if base.last() == '/' {
        base
    } else {
        base.push('/')
    };
    let whole = joined(base, rel);
    assert(whole =~= slashed + rel);
    lemma_pieces_behind_slash(slashed, rel);
    Seq::filter_distributes_over_add(pieces(slashed).drop_last(), pieces(rel), named);
    if base.last() == '/' {
        reveal(Seq::filter);
        assert(!is_name(pieces(base).last()));
        assert(pieces(base).filter(named) == pieces(slashed).drop_last().filter(named));
    } else {
        lemma_pieces_push(base, '/');
        assert(pieces(slashed).drop_last() =~= pieces(base));
    }
    assert(whole[0] == base[0]);
    if base.len() > 1 {
        assert(whole[1] == base[1]);
    } else if base[0] != '/' {
        assert(whole[1] == '/');
    }
    assert(lead(whole) =~= lead(base));
    let own = pieces(rel).filter(named);
    assert(components_of(whole) =~= components_of(base) + own);
    if starts_with_dot(rel) {
        assert(components_of(rel).drop_first() =~= own);
    } else {
        assert(components_of(rel) =~= own);
    }
}

/// The parent is a start of the path's text, has its components without the last, and no shorter
/// start has these. The root and a path without components have none, all others do.
pub proof fn law_parent_is_shortest_start(p: Seq<char>)
    ensures
        parent_of(p) is None <==> components_of(p).len() == 0 || (p.len() > 0 && p[0] == '/'
            && components_of(p).len() == 1),
        parent_of(p) matches Some(d) ==> {
            &&& d.len() <= p.len()
            &&& d == p.take(d.len() as int)
            &&& components_of(d) == components_of(p).take(components_of(p).len() - 1)
            &&& forall|n: int|
                0 <= n < d.len() ==> components_of(#[trigger] p.take(n)) != components_of(p).take(
                    components_of(p).len() - 1,
                )
        },
{
    law_parent_drops_last_component(p);
    if let Some(d) = parent_of(p) {
        assert(d =~= p.take(d.len() as int));
        assert(components_of(p).drop_last() =~= components_of(p).take(components_of(p).len() - 1));
        assert forall|n: int| 0 <= n < d.len() implies components_of(#[trigger] p.take(n))
            != components_of(p).take(components_of(p).len() - 1) by {
            assert(p.take(n).is_prefix_of(p));
        }
    }
}

/// Texts denote the same path exactly where their components agree, so different names in one
/// directory are different paths.
pub proof fn law_names_tell_paths_apart(
    a: Seq<char>,
    b: Seq<char>,
    dir: Seq<char>,
    first: Seq<char>,
    second: Seq<char>,
)
    requires
        dir.len() > 0,
        first.len() > 0 && !first.contains('/') && first != seq!['.'],
        second.len() > 0 && !second.contains('/') && second != seq!['.'],
        first != second,
    ensures
        same_path(a, b) <==> components_of(a) == components_of(b),
        !same_path(dir + seq!['/'] + first, dir + seq!['/'] + second),
        same_path(dir + seq!['/'], dir),
{
    law_components_of_one_more_piece(dir, first);
    law_components_of_one_more_piece(dir, second);
    law_components_of_one_more_piece(dir, Seq::empty());
    assert(dir + seq!['/'] + Seq::<char>::empty() =~= dir + seq!['/']);
    let x = components_of(dir) + seq![first];
    let y = components_of(dir) + seq![second];
    assert(components_of(dir) + Seq::<Seq<char>>::empty() =~= components_of(dir));
    assert(x[components_of(dir).len() as int] == first);
    assert(y[components_of(dir).len() as int] == second);
}

/// The lowest number of components that an enclosing directory of `p` has: the root counts.
pub open spec fn least_depth(p: Seq<char>) -> int {
    if p.len() > 0 && p[0] == '/' {
        1
    } else {
        0
    }
}

/// Going up from a path passes one directory for each number of components, from all of the
/// path's down to the root, or to nothing where the path is relative.
pub proof fn law_ancestors_by_depth(p: Seq<char>)
    ensures
        ancestors(p).len() == components_of(p).len() - least_depth(p) + 1,
        forall|k: int|
            0 <= k < ancestors(p).len() ==> {
                &&& (#[trigger] ancestors(p)[k]).is_prefix_of(p)
                &&& components_of(ancestors(p)[k]) == components_of(p).take(
                    components_of(p).len() - k,
                )
            },
    decreases components_of(p).len(),
{
    let all = components_of(p);
    law_parent_is_shortest_start(p);
    if p.len() > 0 && p[0] == '/' {
        assert(all[0] == lead(p)[0]);
    }
    match parent_of(p) {
        None => {
            assert(ancestors(p) =~= seq![p]);
            assert(all.take(all.len() as int) =~= all);
        },
        Some(d) => {
            law_ancestors_by_depth(d);
            assert(ancestors(p) =~= seq![p] + ancestors(d));
            if p.len() > 0 && p[0] == '/' {
                if d.len() == 0 {
                    lemma_cut_empty();
                    assert(d =~= Seq::empty());
                }
                assert(d[0] == p[0]);
            } else if d.len() > 0 {
                assert(d[0] == p[0]);
            }
            assert forall|k: int| 0 <= k < ancestors(p).len() implies {
                &&& (#[trigger] ancestors(p)[k]).is_prefix_of(p)
                &&& components_of(ancestors(p)[k]) == all.take(all.len() - k)
            } by {
                let a = ancestors(p)[k];
                if k == 0 {
                    assert(all.take(all.len() as int) =~= all);
                    assert(p.subrange(0, p.len() as int) =~= p);
                } else {
                    assert(a == ancestors(d)[k - 1]);
                    assert(a =~= d.take(a.len() as int));
                    assert(a =~= p.take(a.len() as int));
                    assert(components_of(d).take(components_of(d).len() - (k - 1)) =~= all.take(
                        all.len() - k,
                    ));
                }
            }
        },
    }
}

} // verus!
