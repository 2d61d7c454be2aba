//! What holds of the paths that single tool calls touch, and of the tool calls of an exchange.

use vstd::prelude::*;

use crate::conversation::{
    AIAgentAction, AIAgentActionType, AIAgentExchange, AIAgentOutputMessage,
    AIAgentOutputMessageType, FileEdit, FileLocations,
};
#[allow(unused_imports)]
use crate::extraction::{
    absolute_texts, action_paths, actions_among, edited_files, exchange_actions, most_recent,
    raw_paths, resolved, resolved_all, texts_of_option,
};
#[allow(unused_imports)]
use crate::paths::{is_absolute_path, joined, texts};
#[allow(unused_imports)]
use crate::text::{
    has_bare_ends, is_all_white, law_trimmed_is_core, law_trimmed_parts, trimmed,
};

verus! {

/// `raw` is `core` with white space around it. `core` is not empty, and `p` is `core` itself
/// where that starts with a slash, else `core` seen from the working directory.
pub open spec fn points_to(raw: Seq<char>, cwd: Option<Seq<char>>, p: Seq<char>) -> bool {
    exists|before: Seq<char>, core: Seq<char>, behind: Seq<char>|
        {
            &&& raw == #[trigger] (before + core + behind)
            &&& is_all_white(before)
            &&& is_all_white(behind)
            &&& core.len() > 0
            &&& has_bare_ends(core)
            &&& if core[0] == '/' {
                p == core
            } else {
                cwd matches Some(c) && p == joined(c, core)
            }
        }
}

/// A text resolves to a path exactly where it points to it.
pub proof fn law_resolved_points_to(raw: Seq<char>, cwd: Option<Seq<char>>, p: Seq<char>)
    ensures
        resolved(raw, cwd) == Some(p) <==> points_to(raw, cwd, p),
{
    law_trimmed_parts(raw);
    let (x, y): (Seq<char>, Seq<char>) = choose|x: Seq<char>, y: Seq<char>|
        is_all_white(x) && is_all_white(y) && raw == #[trigger] (x + trimmed(raw) + y);
    assert(raw == x + trimmed(raw) + y);
    if points_to(raw, cwd, p) {
        let (before, core, behind): (Seq<char>, Seq<char>, Seq<char>) = choose|
            before: Seq<char>,
            core: Seq<char>,
            behind: Seq<char>,
        |
            {
                &&& raw == #[trigger] (before + core + behind)
                &&& is_all_white(before)
                &&& is_all_white(behind)
                &&& core.len() > 0
                &&& has_bare_ends(core)
                &&& if core[0] == '/' {
                    p == core
                } else {
                    cwd matches Some(c) && p == joined(c, core)
                }
            };
        law_trimmed_is_core(before, core, behind);
    }
}

/// A text resolves to nothing exactly where it is white space throughout, or where what is
/// between the white space does not start with a slash and there is no working directory.
pub proof fn law_resolved_to_nothing(before: Seq<char>, core: Seq<char>, behind: Seq<char>)
    requires
        is_all_white(before),
        is_all_white(behind),
        has_bare_ends(core),
    ensures
        resolved(before + core + behind, None) is None <==> core.len() == 0 || core[0] != '/',
        forall|cwd: Seq<char>|
            #![trigger resolved(before + core + behind, Some(cwd))]
            resolved(before + core + behind, Some(cwd)) is None <==> core.len() == 0,
{
    law_trimmed_is_core(before, core, behind);
}

/// `p` stands in `s`, and `q` behind it.
pub open spec fn in_order(s: Seq<Seq<char>>, p: Seq<char>, q: Seq<char>) -> bool {
    exists|a: int, b: int| 0 <= a < b < s.len() && #[trigger] s[a] == p && #[trigger] s[b] == q
}

proof fn lemma_resolved_all_contains(
    raws: Seq<Seq<char>>,
    cwd: Option<Seq<char>>,
    p: Seq<char>,
)
    ensures
        resolved_all(raws, cwd).contains(p) <==> exists|i: int|
            0 <= i < raws.len() && points_to(#[trigger] raws[i], cwd, p),
    decreases raws.len(),
{
    let all = resolved_all(raws, cwd);
    if raws.len() > 0 {
        let front = raws.drop_last();
        let before = resolved_all(front, cwd);
        lemma_resolved_all_contains(front, cwd, p);
        law_resolved_points_to(raws.last(), cwd, p);
        if all.contains(p) {
            let k = choose|k: int| 0 <= k < all.len() && all[k] == p;
            if k < before.len() {
                assert(before[k] == p);
                let i = choose|i: int| 0 <= i < front.len() && points_to(#[trigger] front[i], cwd, p);
                assert(raws[i] == front[i]);
            } else {
                assert(points_to(raws[raws.len() - 1], cwd, p));
            }
        }
        if exists|i: int| 0 <= i < raws.len() && points_to(#[trigger] raws[i], cwd, p) {
            let i = choose|i: int| 0 <= i < raws.len() && points_to(#[trigger] raws[i], cwd, p);
            if i < front.len() {
                assert(front[i] == raws[i]);
                let k = choose|k: int| 0 <= k < before.len() && before[k] == p;
                assert(all[k] == p);
            } else {
                assert(all[before.len() as int] == p);
            }
        }
    }
}

proof fn lemma_resolved_all_in_order(
    raws: Seq<Seq<char>>,
    cwd: Option<Seq<char>>,
    i: int,
    j: int,
    p: Seq<char>,
    q: Seq<char>,
)
    requires
        0 <= i < j < raws.len(),
        points_to(raws[i], cwd, p),
        points_to(raws[j], cwd, q),
    ensures
        in_order(resolved_all(raws, cwd), p, q),
    decreases raws.len(),
{
    let front = raws.drop_last();
    let before = resolved_all(front, cwd);
    let all = resolved_all(raws, cwd);
    assert(front[i] == raws[i]);
    if j < front.len() {
        assert(front[j] == raws[j]);
        lemma_resolved_all_in_order(front, cwd, i, j, p, q);
        let (a, b): (int, int) = choose|a: int, b: int|
            0 <= a < b < before.len() && #[trigger] before[a] == p && #[trigger] before[b] == q;
        assert(all[a] == p);
        assert(all[b] == q);
    } else {
        lemma_resolved_all_contains(front, cwd, p);
        law_resolved_points_to(raws.last(), cwd, q);
        let a = choose|a: int| 0 <= a < before.len() && before[a] == p;
        assert(all[a] == p);
        assert(all[before.len() as int] == q);
    }
}

proof fn lemma_edited_files(edits: Seq<FileEdit>, f: Seq<char>)
    ensures
        edited_files(edits).contains(f) <==> exists|i: int|
            0 <= i < edits.len() && ((#[trigger] edits[i]).file matches Some(t) && t@ == f),
    decreases edits.len(),
{
    let all = edited_files(edits);
    if edits.len() > 0 {
        let front = edits.drop_last();
        let before = edited_files(front);
        lemma_edited_files(front, f);
        if all.contains(f) {
            let k = choose|k: int| 0 <= k < all.len() && all[k] == f;
            if k < before.len() {
                assert(before[k] == f);
                let i = choose|i: int|
                    0 <= i < front.len() && ((#[trigger] front[i]).file matches Some(t) && t@ == f);
                assert(edits[i] == front[i]);
            } else {
                assert(edits[edits.len() - 1].file matches Some(t) && t@ == f);
            }
        }
        if exists|i: int|
            0 <= i < edits.len() && ((#[trigger] edits[i]).file matches Some(t) && t@ == f) {
            let i = choose|i: int|
                0 <= i < edits.len() && ((#[trigger] edits[i]).file matches Some(t) && t@ == f);
            if i < front.len() {
                assert(front[i] == edits[i]);
                let k = choose|k: int| 0 <= k < before.len() && before[k] == f;
                assert(all[k] == f);
            } else {
                assert(all[before.len() as int] == f);
            }
        }
    }
}

proof fn lemma_edited_files_in_order(
    edits: Seq<FileEdit>,
    i: int,
    j: int,
    f: Seq<char>,
    g: Seq<char>,
)
    requires
        0 <= i < j < edits.len(),
        edits[i].file matches Some(t) && t@ == f,
        edits[j].file matches Some(t) && t@ == g,
    ensures
        in_order(edited_files(edits), f, g),
    decreases edits.len(),
{
    let front = edits.drop_last();
    let before = edited_files(front);
    let all = edited_files(edits);
    assert(front[i] == edits[i]);
    if j < front.len() {
        assert(front[j] == edits[j]);
        lemma_edited_files_in_order(front, i, j, f, g);
        let (a, b): (int, int) = choose|a: int, b: int|
            0 <= a < b < before.len() && #[trigger] before[a] == f && #[trigger] before[b] == g;
        assert(all[a] == f);
        assert(all[b] == g);
    } else {
        lemma_edited_files(front, f);
        let a = choose|a: int| 0 <= a < before.len() && before[a] == f;
        assert(all[a] == f);
        assert(all[before.len() as int] == g);
    }
}

/// Which paths a tool call touches, kind by kind and in terms of what the call carries: each
/// edited file, each file read, the path of a search, the directory of a file search, the
/// codebase and the absolute partial paths of a code search, the repository of a review, the
/// uploaded file. No other kind touches any.
pub proof fn law_touched_by_kind(action: AIAgentAction, cwd: Option<Seq<char>>, p: Seq<char>)
    ensures
        action_paths(action, cwd).contains(p) <==> match action.action {
            AIAgentActionType::RequestFileEdits { file_edits } => exists|i: int|
                0 <= i < file_edits@.len() && ((#[trigger] file_edits@[i]).file matches Some(f)
                    && points_to(f@, cwd, p)),
            AIAgentActionType::ReadFiles(req) => exists|i: int|
                0 <= i < req.locations@.len() && points_to(
                    (#[trigger] req.locations@[i]).name@,
                    cwd,
                    p,
                ),
            AIAgentActionType::Grep { path } => points_to(path@, cwd, p),
            AIAgentActionType::FileGlob { path } => path matches Some(t) && points_to(t@, cwd, p),
            AIAgentActionType::FileGlobV2 { search_dir } => search_dir matches Some(t)
                && points_to(t@, cwd, p),
            AIAgentActionType::SearchCodebase(req) => {
                ||| req.codebase_path matches Some(t) && points_to(t@, cwd, p)
                ||| req.partial_paths matches Some(v) && exists|i: int|
                    {
                        &&& 0 <= i < v@.len()
                        &&& (#[trigger] v@[i])@.len() > 0
                        &&& v@[i]@[0] == '/'
                        &&& points_to(v@[i]@, cwd, p)
                    }
            },
            AIAgentActionType::InsertCodeReviewComments { repo_path } => match cwd {
                Some(c) => if repo_path@.len() > 0 && repo_path@[0] == '/' {
                    p == repo_path@
                } else {
                    p == joined(c, repo_path@)
                },
                None => p == repo_path@,
            },
            AIAgentActionType::UploadArtifact(req) => points_to(req.file_path@, cwd, p),
            _ => false,
        },
{
    let raws = raw_paths(action.action);
    lemma_resolved_all_contains(raws, cwd, p);
    match action.action {
        AIAgentActionType::RequestFileEdits { file_edits } => {
            if action_paths(action, cwd).contains(p) {
                let k = choose|k: int| 0 <= k < raws.len() && points_to(#[trigger] raws[k], cwd, p);
                lemma_edited_files(file_edits@, raws[k]);
                assert(raws.contains(raws[k]));
            }
            if exists|i: int|
                0 <= i < file_edits@.len() && ((#[trigger] file_edits@[i]).file matches Some(f)
                    && points_to(f@, cwd, p)) {
                let i = choose|i: int|
                    0 <= i < file_edits@.len() && ((#[trigger] file_edits@[i]).file matches Some(f)
                        && points_to(f@, cwd, p));
                let f = file_edits@[i].file->0@;
                lemma_edited_files(file_edits@, f);
                let k = choose|k: int| 0 <= k < raws.len() && raws[k] == f;
                assert(points_to(raws[k], cwd, p));
            }
        },
        AIAgentActionType::ReadFiles(req) => {
            assert forall|i: int| 0 <= i < raws.len() implies raws[i]
                == (#[trigger] req.locations@[i]).name@ by {}
            if exists|i: int|
                0 <= i < req.locations@.len() && points_to(
                    (#[trigger] req.locations@[i]).name@,
                    cwd,
                    p,
                ) {
                let i = choose|i: int|
                    0 <= i < req.locations@.len() && points_to(
                        (#[trigger] req.locations@[i]).name@,
                        cwd,
                        p,
                    );
                assert(points_to(raws[i], cwd, p));
            }
            if action_paths(action, cwd).contains(p) {
                let k = choose|k: int| 0 <= k < raws.len() && points_to(#[trigger] raws[k], cwd, p);
                assert(points_to(req.locations@[k].name@, cwd, p));
            }
        },
        AIAgentActionType::SearchCodebase(req) => {
            let head = texts_of_option(req.codebase_path);
            let tail = absolute_texts(req.partial_paths);
            assert(raws == head + tail);
            if let Some(t) = req.codebase_path {
                assert(raws[0] == t@);
            }
            if let Some(v) = req.partial_paths {
                lemma_absolute_texts(v@, p);
                let pred = |x: Seq<char>| is_absolute_path(x);
                assert forall|i: int| 0 <= i < v@.len() && (#[trigger] v@[i])@.len() > 0
                    && v@[i]@[0] == '/' && points_to(v@[i]@, cwd, p) implies exists|k: int|
                    0 <= k < raws.len() && points_to(#[trigger] raws[k], cwd, p) by {
                    lemma_absolute_texts(v@, v@[i]@);
                    let m = choose|m: int| 0 <= m < tail.len() && tail[m] == v@[i]@;
                    assert(raws[head.len() + m] == tail[m]);
                }
            }
            if action_paths(action, cwd).contains(p) {
                let k = choose|k: int| 0 <= k < raws.len() && points_to(#[trigger] raws[k], cwd, p);
                if k >= head.len() {
                    assert(raws[k] == tail[k - head.len()]);
                    let v = req.partial_paths->0;
                    lemma_absolute_texts(v@, raws[k]);
                    assert(tail.contains(raws[k]));
                    let i = choose|i: int|
                        {
                            &&& 0 <= i < v@.len()
                            &&& (#[trigger] v@[i])@ == raws[k]
                            &&& v@[i]@.len() > 0
                            &&& v@[i]@[0] == '/'
                        };
                    assert(points_to(v@[i]@, cwd, p));
                }
            }
        },
        AIAgentActionType::InsertCodeReviewComments { repo_path } => {
            assert(action_paths(action, cwd).contains(p) ==> action_paths(action, cwd)[0] == p);
            assert(action_paths(action, cwd)[0] == p ==> action_paths(action, cwd).contains(p));
        },
        AIAgentActionType::Grep { path } => {
            assert(raws[0] == path@);
        },
        AIAgentActionType::FileGlob { path } => {
            if let Some(t) = path {
                assert(raws[0] == t@);
            }
        },
        AIAgentActionType::FileGlobV2 { search_dir } => {
            if let Some(t) = search_dir {
                assert(raws[0] == t@);
            }
        },
        AIAgentActionType::UploadArtifact(req) => {
            assert(raws[0] == req.file_path@);
        },
        _ => {},
    }
}

proof fn lemma_absolute_texts(v: Seq<String>, f: Seq<char>)
    ensures
        texts(v).filter(|x: Seq<char>| is_absolute_path(x)).contains(f) <==> exists|i: int|
            {
                &&& 0 <= i < v.len()
                &&& (#[trigger] v[i])@ == f
                &&& v[i]@.len() > 0
                &&& v[i]@[0] == '/'
            },
    decreases v.len(),
{
    let pred = |x: Seq<char>| is_absolute_path(x);
    let all = texts(v).filter(pred);
    reveal(Seq::filter);
    if v.len() > 0 {
        let front = v.drop_last();
        let before = texts(front).filter(pred);
        assert(texts(v).drop_last() =~= texts(front));
        lemma_absolute_texts(front, f);
        if all.contains(f) {
            let k = choose|k: int| 0 <= k < all.len() && all[k] == f;
            if k < before.len() {
                assert(before[k] == f);
                let i = choose|i: int|
                    {
                        &&& 0 <= i < front.len()
                        &&& (#[trigger] front[i])@ == f
                        &&& front[i]@.len() > 0
                        &&& front[i]@[0] == '/'
                    };
                assert(v[i] == front[i]);
            } else {
                assert(v[v.len() - 1]@ == f);
            }
        }
        if exists|i: int|
            {
                &&& 0 <= i < v.len()
                &&& (#[trigger] v[i])@ == f
                &&& v[i]@.len() > 0
                &&& v[i]@[0] == '/'
            } {
            let i = choose|i: int|
                {
                    &&& 0 <= i < v.len()
                    &&& (#[trigger] v[i])@ == f
                    &&& v[i]@.len() > 0
                    &&& v[i]@[0] == '/'
                };
            if i < front.len() {
                assert(front[i] == v[i]);
                let k = choose|k: int| 0 <= k < before.len() && before[k] == f;
                assert(all[k] == f);
            } else {
                assert(all[before.len() as int] == f);
            }
        }
    }
}

proof fn lemma_absolute_texts_in_order(v: Seq<String>, i: int, j: int)
    requires
        0 <= i < j < v.len(),
        v[i]@.len() > 0 && v[i]@[0] == '/',
        v[j]@.len() > 0 && v[j]@[0] == '/',
    ensures
        in_order(texts(v).filter(|x: Seq<char>| is_absolute_path(x)), v[i]@, v[j]@),
    decreases v.len(),
{
    let pred = |x: Seq<char>| is_absolute_path(x);
    let front = v.drop_last();
    let before = texts(front).filter(pred);
    let all = texts(v).filter(pred);
    reveal(Seq::filter);
    assert(texts(v).drop_last() =~= texts(front));
    assert(front[i] == v[i]);
    if j < front.len() {
        assert(front[j] == v[j]);
        lemma_absolute_texts_in_order(front, i, j);
        let (a, b): (int, int) = choose|a: int, b: int|
            0 <= a < b < before.len() && #[trigger] before[a] == v[i]@ && #[trigger] before[b]
                == v[j]@;
        assert(all[a] == v[i]@);
        assert(all[b] == v[j]@);
    } else {
        lemma_absolute_texts(front, v[i]@);
        let a = choose|a: int| 0 <= a < before.len() && before[a] == v[i]@;
        assert(all[a] == v[i]@);
        assert(all[before.len() as int] == v[j]@);
    }
}

/// Of two entries of a list that a tool call carries, the earlier one's path comes first: among
/// the edits, among the files read, and among the absolute partial paths of a code search, which
/// come behind the codebase.
pub proof fn law_entries_keep_their_order(
    action: AIAgentAction,
    cwd: Option<Seq<char>>,
    i: int,
    j: int,
    p: Seq<char>,
    q: Seq<char>,
)
    requires
        match action.action {
            AIAgentActionType::RequestFileEdits { file_edits } => {
                &&& 0 <= i < j < file_edits@.len()
                &&& file_edits@[i].file matches Some(f) && points_to(f@, cwd, p)
                &&& file_edits@[j].file matches Some(f) && points_to(f@, cwd, q)
            },
            AIAgentActionType::ReadFiles(req) => {
                &&& 0 <= i < j < req.locations@.len()
                &&& points_to(req.locations@[i].name@, cwd, p)
                &&& points_to(req.locations@[j].name@, cwd, q)
            },
            AIAgentActionType::SearchCodebase(req) => {
                &&& req.partial_paths matches Some(v) && {
                    &&& 0 <= j < v@.len()
                    &&& v@[j]@.len() > 0 && v@[j]@[0] == '/'
                    &&& points_to(v@[j]@, cwd, q)
                    &&& i < j
                    &&& if i < 0 {
                        req.codebase_path matches Some(t) && points_to(t@, cwd, p)
                    } else {
                        v@[i]@.len() > 0 && v@[i]@[0] == '/' && points_to(v@[i]@, cwd, p)
                    }
                }
            },
            _ => false,
        },
    ensures
        in_order(action_paths(action, cwd), p, q),
{
    let raws = raw_paths(action.action);
    match action.action {
        AIAgentActionType::RequestFileEdits { file_edits } => {
            let f = file_edits@[i].file->0@;
            let g = file_edits@[j].file->0@;
            lemma_edited_files_in_order(file_edits@, i, j, f, g);
            let (a, b): (int, int) = choose|a: int, b: int|
                0 <= a < b < raws.len() && #[trigger] raws[a] == f && #[trigger] raws[b] == g;
            lemma_resolved_all_in_order(raws, cwd, a, b, p, q);
        },
        AIAgentActionType::ReadFiles(req) => {
            lemma_resolved_all_in_order(raws, cwd, i, j, p, q);
        },
        AIAgentActionType::SearchCodebase(req) => {
            let v = req.partial_paths->0;
            let head = texts_of_option(req.codebase_path);
            let tail = absolute_texts(req.partial_paths);
            assert(raws == head + tail);
            if i < 0 {
                lemma_absolute_texts(v@, v@[j]@);
                let b = choose|b: int| 0 <= b < tail.len() && tail[b] == v@[j]@;
                assert(raws[0] == head[0]);
                assert(raws[head.len() + b] == tail[b]);
                lemma_resolved_all_in_order(raws, cwd, 0, head.len() + b, p, q);
            } else {
                lemma_absolute_texts_in_order(v@, i, j);
                let (a, b): (int, int) = choose|a: int, b: int|
                    0 <= a < b < tail.len() && #[trigger] tail[a] == v@[i]@ && #[trigger] tail[b]
                        == v@[j]@;
                assert(raws[head.len() + a] == tail[a]);
                assert(raws[head.len() + b] == tail[b]);
                lemma_resolved_all_in_order(raws, cwd, head.len() + a, head.len() + b, p, q);
            }
        },
        _ => {},
    }
}

/// The tool calls among messages are all of them, whatever stands between, in their order.
pub proof fn law_every_action_message_counts(messages: Seq<AIAgentOutputMessage>)
    ensures
        actions_among(messages) == messages.filter(
            |m: AIAgentOutputMessage| m.message is Action,
        ).map_values(|m: AIAgentOutputMessage| m.message->Action_0),
        forall|k: int|
            0 <= k < messages.len() && (#[trigger] messages[k]).message is Action ==> actions_among(
                messages,
            ).contains(messages[k].message->Action_0),
        forall|k: int|
            0 <= k < actions_among(messages).len() ==> exists|m: int|
                0 <= m < messages.len() && (#[trigger] messages[m]).message
                    == AIAgentOutputMessageType::Action(#[trigger] actions_among(messages)[k]),
    decreases messages.len(),
{
    let is_action = |m: AIAgentOutputMessage| m.message is Action;
    let to_action = |m: AIAgentOutputMessage| m.message->Action_0;
    let all = actions_among(messages);
    reveal(Seq::filter);
    if messages.len() > 0 {
        let front = messages.drop_last();
        let before = actions_among(front);
        law_every_action_message_counts(front);
        assert(all =~= messages.filter(is_action).map_values(to_action));
        assert forall|k: int|
            0 <= k < messages.len() && (#[trigger] messages[k]).message is Action implies all.contains(
            messages[k].message->Action_0,
        ) by {
            let a = messages[k].message->Action_0;
            if k < front.len() {
                assert(front[k] == messages[k]);
                let n = choose|n: int| 0 <= n < before.len() && before[n] == a;
                assert(all[n] == a);
            } else {
                assert(all[before.len() as int] == a);
            }
        }
        assert forall|k: int| 0 <= k < all.len() implies exists|m: int|
            0 <= m < messages.len() && (#[trigger] messages[m]).message
                == AIAgentOutputMessageType::Action(#[trigger] all[k]) by {
            if k < before.len() {
                assert(all[k] == before[k]);
                let m = choose|m: int|
                    0 <= m < front.len() && (#[trigger] front[m]).message
                        == AIAgentOutputMessageType::Action(before[k]);
                assert(messages[m] == front[m]);
            } else {
                assert(messages[messages.len() - 1].message == AIAgentOutputMessageType::Action(
                    all[k],
                ));
            }
        }
    } else {
        assert(all =~= messages.filter(is_action).map_values(to_action));
    }
}

/// The tool calls of an exchange are those among the messages of its output; without an output
/// there are none.
pub proof fn law_exchange_actions(exchange: AIAgentExchange)
    ensures
        exchange.output matches Some(output) ==> exchange_actions(exchange)
            == output.messages@.filter(|m: AIAgentOutputMessage| m.message is Action).map_values(
            |m: AIAgentOutputMessage| m.message->Action_0,
        ),
        exchange.output is None ==> exchange_actions(exchange).len() == 0,
{
    if let Some(output) = exchange.output {
        law_every_action_message_counts(output.messages@);
    }
}

/// The most recent items are the end of the list: `n` of them, or all where it has fewer.
pub proof fn law_most_recent_is_the_end<A>(s: Seq<A>, n: nat)
    ensures
        most_recent(s, n).len() == (if s.len() < n {
            s.len()
        } else {
            n
        }),
        forall|k: int|
            0 <= k < most_recent(s, n).len() ==> #[trigger] most_recent(s, n)[k] == s[s.len()
                - most_recent(s, n).len() + k],
{
}

} // verus!
