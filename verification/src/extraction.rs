//! The paths that a conversation touched.
//!
//! They come from the tool calls that carry paths and from the working directory of each
//! exchange. Absolute paths are kept; others are resolved against the working directory of
//! their exchange. Only the [`MAX_TOOL_CALLS_TO_SCAN`] most recent tool calls are looked at, so
//! a very long conversation costs no more than a long one.

use vstd::prelude::*;

use crate::conversation::{
    AIAgentAction, AIAgentActionType, AIAgentExchange, AIAgentOutputMessage,
    AIAgentOutputMessageType, AIConversation, FileEdit, FileLocations,
};
use crate::path_list::PathList;
#[allow(unused_imports)]
use crate::path_list::{
    distinct_paths, first_of_each, lemma_with_paths_add, lemma_with_paths_one, with_path,
    with_paths,
};
use crate::paths::{is_absolute, join};
#[allow(unused_imports)]
use crate::paths::{is_absolute_path, joined, texts};
use crate::text::trim;
#[allow(unused_imports)]
use crate::text::{str_text, text_of, trimmed};

verus! {

/// How many of the conversation's tool calls are scanned for paths, counted from the most
/// recent backwards.
pub const MAX_TOOL_CALLS_TO_SCAN: usize = 500;

/// Where `raw` points, white space around it aside: to itself where it is absolute, else into
/// `cwd`. Without a working directory a relative path points nowhere, and so does an empty one.
pub open spec fn resolved(raw: Seq<char>, cwd: Option<Seq<char>>) -> Option<Seq<char>> {
    let t = trimmed(raw);
    if t.len() == 0 {
        None
    } else if is_absolute_path(t) {
        Some(t)
    } else {
        match cwd {
            Some(c) => Some(joined(c, t)),
            None => None,
        }
    }
}

/// A reference to the text of an optional string.
fn as_text(s: &Option<String>) -> (t: Option<&str>)
    ensures
        str_text(t) == text_of(*s),
{
    match s {
        Some(t) => Some(t.as_str()),
        None => None,
    }
}

/// Adds `raw` to `paths`, resolved against `cwd` where it is not absolute. An entry that is
/// missing, empty, or relative without a working directory adds nothing.
pub fn push_resolved(raw: Option<&str>, cwd: Option<&str>, paths: &mut PathList)
    requires
        old(paths).wf(),
    ensures
        final(paths).wf(),
        final(paths)@ == match raw {
            Some(r) => match resolved(r@, str_text(cwd)) {
                Some(p) => with_path(old(paths)@, p),
                None => old(paths)@,
            },
            None => old(paths)@,
        },
{
    let raw = match raw {
        Some(r) => trim(r),
        None => {
            return ;
        },
    };
    if raw.is_empty() {
        return ;
    }
    let path: String = if is_absolute(raw) {
        raw.to_owned()
    } else if let Some(cwd) = cwd {
        join(cwd, raw)
    } else {
        return ;
    };
    paths.insert(path);
}

/// The texts of `raws` that point somewhere, resolved, in order.
pub open spec fn resolved_all(raws: Seq<Seq<char>>, cwd: Option<Seq<char>>) -> Seq<Seq<char>>
    decreases raws.len(),
{
    if raws.len() == 0 {
        Seq::empty()
    } else {
        let before = resolved_all(raws.drop_last(), cwd);
        match resolved(raws.last(), cwd) {
            Some(p) => before.push(p),
            None => before,
        }
    }
}

/// The files that a list of edits names, in order.
pub open spec fn edited_files(edits: Seq<FileEdit>) -> Seq<Seq<char>>
    decreases edits.len(),
{
    if edits.len() == 0 {
        Seq::empty()
    } else {
        let before = edited_files(edits.drop_last());
        match edits.last().file {
            Some(f) => before.push(f@),
            None => before,
        }
    }
}

/// An optional string as a list.
pub open spec fn texts_of_option(s: Option<String>) -> Seq<Seq<char>> {
    match s {
        Some(t) => seq![t@],
        None => Seq::empty(),
    }
}

/// The absolute ones among optional partial paths.
pub open spec fn absolute_texts(partial_paths: Option<Vec<String>>) -> Seq<Seq<char>> {
    match partial_paths {
        Some(v) => texts(v@).filter(|p: Seq<char>| is_absolute_path(p)),
        None => Seq::empty(),
    }
}

/// The texts that a tool call carries as paths and that may still need resolving. Of the
/// partial paths of a code search only those that are absolute count.
pub open spec fn raw_paths(action: AIAgentActionType) -> Seq<Seq<char>> {
    match action {
        AIAgentActionType::RequestFileEdits { file_edits } => edited_files(file_edits@),
        AIAgentActionType::ReadFiles(req) => req.locations@.map_values(
            |l: FileLocations| l.name@,
        ),
        AIAgentActionType::Grep { path } => seq![path@],
        AIAgentActionType::FileGlob { path } => texts_of_option(path),
        AIAgentActionType::FileGlobV2 { search_dir } => texts_of_option(search_dir),
        AIAgentActionType::SearchCodebase(req) => texts_of_option(req.codebase_path)
            + absolute_texts(req.partial_paths),
        AIAgentActionType::UploadArtifact(req) => seq![req.file_path@],
        _ => Seq::empty(),
    }
}

/// The paths that a tool call in the working directory `cwd` touches, in order. The repository
/// that a review belongs to is taken as it is written, from `cwd` where it is relative.
pub open spec fn action_paths(action: AIAgentAction, cwd: Option<Seq<char>>) -> Seq<Seq<char>> {
    match action.action {
        AIAgentActionType::InsertCodeReviewComments { repo_path } => match cwd {
            Some(c) => seq![joined(c, repo_path@)],
            None => seq![repo_path@],
        },
        _ => resolved_all(raw_paths(action.action), cwd),
    }
}

proof fn lemma_resolved_push(raws: Seq<Seq<char>>, raw: Seq<char>, cwd: Option<Seq<char>>)
    ensures
        resolved_all(raws.push(raw), cwd) == match resolved(raw, cwd) {
            Some(p) => resolved_all(raws, cwd).push(p),
            None => resolved_all(raws, cwd),
        },
{
    assert(raws.push(raw).drop_last() =~= raws);
}

proof fn lemma_with_resolved_push(
    start: Seq<Seq<char>>,
    raws: Seq<Seq<char>>,
    raw: Seq<char>,
    cwd: Option<Seq<char>>,
)
    ensures
        with_paths(start, resolved_all(raws.push(raw), cwd)) == match resolved(raw, cwd) {
            Some(p) => with_path(with_paths(start, resolved_all(raws, cwd)), p),
            None => with_paths(start, resolved_all(raws, cwd)),
        },
{
    lemma_resolved_push(raws, raw, cwd);
    if let Some(p) = resolved(raw, cwd) {
        assert(resolved_all(raws, cwd).push(p).drop_last() =~= resolved_all(raws, cwd));
    }
}

/// Adds an optional text as [`push_resolved`] does, and says so in terms of lists.
fn push_one(
    raw: Option<&str>,
    cwd: Option<&str>,
    paths: &mut PathList,
    start: Ghost<Seq<Seq<char>>>,
    raws: Ghost<Seq<Seq<char>>>,
)
    requires
        old(paths).wf(),
        old(paths)@ == with_paths(start@, resolved_all(raws@, str_text(cwd))),
    ensures
        final(paths).wf(),
        final(paths)@ == match raw {
            Some(r) => with_paths(start@, resolved_all(raws@.push(r@), str_text(cwd))),
            None => with_paths(start@, resolved_all(raws@, str_text(cwd))),
        },
{
    proof {
        if let Some(r) = raw {
            lemma_with_resolved_push(start@, raws@, r@, str_text(cwd));
        }
    }
    push_resolved(raw, cwd, paths);
}

/// Adds the paths that `action` touches to `paths`.
pub fn extract_action_paths(action: &AIAgentAction, cwd: Option<&str>, paths: &mut PathList)
    requires
        old(paths).wf(),
    ensures
        final(paths).wf(),
        final(paths)@ == with_paths(old(paths)@, action_paths(*action, str_text(cwd))),
{
    let ghost start = paths@;
    let ghost none = Seq::<Seq<char>>::empty();
    assert(with_paths(start, resolved_all(none, str_text(cwd))) == start);
    match &action.action {
        AIAgentActionType::RequestFileEdits { file_edits } => {
            let mut i: usize = 0;
            assert(file_edits@.take(0) =~= Seq::empty());
            while i < file_edits.len()
                invariant
                    i <= file_edits@.len(),
                    paths.wf(),
                    paths@ == with_paths(
                        start,
                        resolved_all(edited_files(file_edits@.take(i as int)), str_text(cwd)),
                    ),
                decreases file_edits@.len() - i,
            {
                let ghost raws = edited_files(file_edits@.take(i as int));
                assert(file_edits@.take(i + 1).drop_last() =~= file_edits@.take(i as int));
                push_one(as_text(&file_edits[i].file), cwd, paths, Ghost(start), Ghost(raws));
                i = i + 1;
            }
            assert(file_edits@.take(i as int) =~= file_edits@);
        },
        AIAgentActionType::ReadFiles(req) => {
            let ghost all = req.locations@.map_values(|l: FileLocations| l.name@);
            let mut i: usize = 0;
            assert(all.take(0) =~= Seq::empty());
            while i < req.locations.len()
                invariant
                    i <= req.locations@.len(),
                    all == req.locations@.map_values(|l: FileLocations| l.name@),
                    paths.wf(),
                    paths@ == with_paths(
                        start,
                        resolved_all(all.take(i as int), str_text(cwd)),
                    ),
                decreases req.locations@.len() - i,
            {
                assert(all.take(i + 1) =~= all.take(i as int).push(all[i as int]));
                push_one(
                    Some(req.locations[i].name.as_str()),
                    cwd,
                    paths,
                    Ghost(start),
                    Ghost(all.take(i as int)),
                );
                i = i + 1;
            }
            assert(all.take(i as int) =~= all);
        },
        AIAgentActionType::Grep { path } => {
            push_one(Some(path.as_str()), cwd, paths, Ghost(start), Ghost(none));
            assert(none.push(path@) =~= seq![path@]);
        },
        AIAgentActionType::FileGlob { path } => {
            push_one(as_text(path), cwd, paths, Ghost(start), Ghost(none));
            proof {
                if let Some(p) = path {
                    assert(none.push(p@) =~= seq![p@]);
                }
            }
        },
        AIAgentActionType::FileGlobV2 { search_dir } => {
            push_one(as_text(search_dir), cwd, paths, Ghost(start), Ghost(none));
            proof {
                if let Some(p) = search_dir {
                    assert(none.push(p@) =~= seq![p@]);
                }
            }
        },
        AIAgentActionType::SearchCodebase(req) => {
            let ghost head = texts_of_option(req.codebase_path);
            push_one(as_text(&req.codebase_path), cwd, paths, Ghost(start), Ghost(none));
            proof {
                if let Some(p) = &req.codebase_path {
                    assert(none.push(p@) =~= seq![p@]);
                }
            }
            assert(paths@ == with_paths(start, resolved_all(head, str_text(cwd))));
            match &req.partial_paths {
                Some(partial_paths) => {
                    let ghost pred = |p: Seq<char>| is_absolute_path(p);
                    let ghost all = texts(partial_paths@);
                    let mut i: usize = 0;
                    proof {
                        reveal(Seq::filter);
                        assert(all.take(0).filter(pred) =~= Seq::empty());
                        assert(head + all.take(0).filter(pred) =~= head);
                    }
                    while i < partial_paths.len()
                        invariant
                            i <= partial_paths@.len(),
                            all == texts(partial_paths@),
                            pred == (|p: Seq<char>| is_absolute_path(p)),
                            paths.wf(),
                            paths@ == with_paths(
                                start,
                                resolved_all(
                                    head + all.take(i as int).filter(pred),
                                    str_text(cwd),
                                ),
                            ),
                        decreases partial_paths@.len() - i,
                    {
                        let ghost raws = head + all.take(i as int).filter(pred);
                        proof {
                            reveal(Seq::filter);
                            assert(all.take(i + 1).drop_last() =~= all.take(i as int));
                        }
                        if is_absolute(partial_paths[i].as_str()) {
                            push_one(
                                Some(partial_paths[i].as_str()),
                                cwd,
                                paths,
                                Ghost(start),
                                Ghost(raws),
                            );
                            assert(head + all.take(i + 1).filter(pred) =~= raws.push(
                                partial_paths@[i as int]@,
                            ));
                        }
                        i = i + 1;
                    }
                    assert(all.take(i as int) =~= all);
                },
                None => {
                    assert(head + absolute_texts(req.partial_paths) =~= head);
                },
            }
        },
        AIAgentActionType::InsertCodeReviewComments { repo_path } => {
            let path: String = match cwd {
                Some(c) => join(c, repo_path.as_str()),
                None => repo_path.clone(),
            };
            proof {
                lemma_with_paths_one(start, path@);
            }
            paths.insert(path);
        },
        AIAgentActionType::UploadArtifact(req) => {
            push_one(Some(req.file_path.as_str()), cwd, paths, Ghost(start), Ghost(none));
            assert(none.push(req.file_path@) =~= seq![req.file_path@]);
        },
        // The actions below carry no path of the workspace that the agent touched.
        AIAgentActionType::RequestCommandOutput
        | AIAgentActionType::WriteToLongRunningShellCommand
        | AIAgentActionType::ReadShellCommandOutput
        | AIAgentActionType::ReadMCPResource
        | AIAgentActionType::CallMCPTool
        | AIAgentActionType::SuggestNewConversation
        | AIAgentActionType::SuggestPrompt
        | AIAgentActionType::InitProject
        | AIAgentActionType::OpenCodeReview
        | AIAgentActionType::ReadDocuments
        | AIAgentActionType::EditDocuments
        | AIAgentActionType::CreateDocuments
        | AIAgentActionType::UseComputer
        | AIAgentActionType::RequestComputerUse
        | AIAgentActionType::ReadSkill
        | AIAgentActionType::FetchConversation
        | AIAgentActionType::StartAgent
        | AIAgentActionType::SendMessageToAgent
        | AIAgentActionType::TransferShellCommandControlToUser
        | AIAgentActionType::AskUserQuestion => {},
    }
}

/// The tool calls among a list of messages, in order.
pub open spec fn actions_among(messages: Seq<AIAgentOutputMessage>) -> Seq<AIAgentAction>
    decreases messages.len(),
{
    if messages.len() == 0 {
        Seq::empty()
    } else {
        let before = actions_among(messages.drop_last());
        match messages.last().message {
            AIAgentOutputMessageType::Action(action) => before.push(action),
            AIAgentOutputMessageType::Other => before,
        }
    }
}

/// The tool calls of an exchange, in order.
pub open spec fn exchange_actions(exchange: AIAgentExchange) -> Seq<AIAgentAction> {
    match exchange.output {
        Some(output) => actions_among(output.messages@),
        None => Seq::empty(),
    }
}

/// The last `n` items of `s`, or all of them where it has fewer.
pub open spec fn most_recent<A>(s: Seq<A>, n: nat) -> Seq<A> {
    if s.len() <= n {
        s
    } else {
        s.skip(s.len() - n)
    }
}

/// The paths that a list of tool calls in the working directory `cwd` touches, in order.
pub open spec fn all_action_paths(
    actions: Seq<AIAgentAction>,
    cwd: Option<Seq<char>>,
) -> Seq<Seq<char>>
    decreases actions.len(),
{
    if actions.len() == 0 {
        Seq::empty()
    } else {
        all_action_paths(actions.drop_last(), cwd) + action_paths(actions.last(), cwd)
    }
}

/// The working directory of an exchange as a list of touched paths, where it is absolute.
pub open spec fn directory_paths(cwd: Option<Seq<char>>) -> Seq<Seq<char>> {
    match cwd {
        Some(c) => if is_absolute_path(c) {
            seq![c]
        } else {
            Seq::empty()
        },
        None => Seq::empty(),
    }
}

/// The paths that an exchange touches: its working directory, then what its `budget` most
/// recent tool calls touch.
pub open spec fn exchange_paths(exchange: AIAgentExchange, budget: nat) -> Seq<Seq<char>> {
    let cwd = text_of(exchange.working_directory);
    directory_paths(cwd) + all_action_paths(
        most_recent(exchange_actions(exchange), budget),
        cwd,
    )
}

/// The paths that a list of exchanges touches, the newest exchange first, with `budget` tool
/// calls to look at. Once they are used up, older exchanges add nothing.
pub open spec fn touched_paths(exchanges: Seq<AIAgentExchange>, budget: nat) -> Seq<Seq<char>>
    decreases exchanges.len(),
{
    if exchanges.len() == 0 || budget == 0 {
        Seq::empty()
    } else {
        let newest = exchanges.last();
        let used = most_recent(exchange_actions(newest), budget).len();
        exchange_paths(newest, budget) + touched_paths(
            exchanges.drop_last(),
            (budget - used) as nat,
        )
    }
}

/// The tool calls among `messages`, in order.
fn collect_actions(messages: &Vec<AIAgentOutputMessage>) -> (actions: Vec<&AIAgentAction>)
    ensures
        actions@.map_values(|a: &AIAgentAction| *a) == actions_among(messages@),
{
    let mut actions: Vec<&AIAgentAction> = Vec::new();
    let mut i: usize = 0;
    assert(messages@.take(0) =~= Seq::empty());
    assert(actions@.map_values(|a: &AIAgentAction| *a) =~= Seq::empty());
    while i < messages.len()
        invariant
            i <= messages@.len(),
            actions@.map_values(|a: &AIAgentAction| *a) == actions_among(
                messages@.take(i as int),
            ),
        decreases messages@.len() - i,
    {
        let ghost before = actions@;
        assert(messages@.take(i + 1).drop_last() =~= messages@.take(i as int));
        if let AIAgentOutputMessageType::Action(action) = &messages[i].message {
            actions.push(action);
            assert(actions@.map_values(|a: &AIAgentAction| *a) =~= before.map_values(
                |a: &AIAgentAction| *a,
            ).push(*action));
        }
        i = i + 1;
    }
    assert(messages@.take(i as int) =~= messages@);
    actions
}

/// Adds what the `budget` most recent tool calls of an exchange touch to `paths`, and returns
/// how many were looked at.
fn extract_exchange_actions(
    exchange: &AIAgentExchange,
    cwd: Option<&str>,
    budget: usize,
    paths: &mut PathList,
) -> (used: usize)
    requires
        old(paths).wf(),
    ensures
        final(paths).wf(),
        used == most_recent(exchange_actions(*exchange), budget as nat).len(),
        final(paths)@ == with_paths(
            old(paths)@,
            all_action_paths(
                most_recent(exchange_actions(*exchange), budget as nat),
                str_text(cwd),
            ),
        ),
{
    let output = match &exchange.output {
        Some(output) => output,
        None => {
            return 0;
        },
    };
    let ghost start = paths@;
    let ghost all = exchange_actions(*exchange);
    let ghost recent = most_recent(all, budget as nat);
    let actions = collect_actions(&output.messages);
    assert(actions@.len() == all.len());
    let first: usize = if actions.len() > budget {
        actions.len() - budget
    } else {
        0
    };
    assert(recent =~= all.skip(first as int));
    let mut i: usize = first;
    assert(recent.take(0) =~= Seq::empty());
    while i < actions.len()
        invariant
            first <= i <= actions@.len(),
            all == actions@.map_values(|a: &AIAgentAction| *a),
            recent == all.skip(first as int),
            paths.wf(),
            paths@ == with_paths(
                start,
                all_action_paths(recent.take(i - first), str_text(cwd)),
            ),
        decreases actions@.len() - i,
    {
        let ghost done = recent.take(i - first);
        proof {
            assert(*actions@[i as int] == all[i as int]);
            assert(recent.take(i + 1 - first) =~= done.push(all[i as int]));
            assert(done.push(all[i as int]).drop_last() =~= done);
            lemma_with_paths_add(
                start,
                all_action_paths(done, str_text(cwd)),
                action_paths(all[i as int], str_text(cwd)),
            );
        }
        extract_action_paths(actions[i], cwd, paths);
        i = i + 1;
    }
    assert(recent.take(i - first) =~= recent);
    actions.len() - first
}

/// The paths that the conversation touched: those of its [`MAX_TOOL_CALLS_TO_SCAN`] most recent
/// tool calls and the working directories of the exchanges up to there, newest exchange first,
/// each path once.
pub fn extract_paths_from_conversation(conversation: &AIConversation) -> (paths: Vec<String>)
    ensures
        texts(paths@) == first_of_each(
            touched_paths(conversation.exchanges@, MAX_TOOL_CALLS_TO_SCAN as nat),
        ),
        distinct_paths(texts(paths@)),
{
    let ghost all = touched_paths(conversation.exchanges@, MAX_TOOL_CALLS_TO_SCAN as nat);
    let mut paths = PathList::new();
    let mut remaining: usize = MAX_TOOL_CALLS_TO_SCAN;
    let mut i: usize = conversation.exchanges.len();
    assert(conversation.exchanges@.take(i as int) =~= conversation.exchanges@);
    while i > 0 && remaining > 0
        invariant
            i <= conversation.exchanges@.len(),
            paths.wf(),
            with_paths(
                paths@,
                touched_paths(conversation.exchanges@.take(i as int), remaining as nat),
            ) == first_of_each(all),
        decreases i,
    {
        let ghost seen = paths@;
        let ghost older = conversation.exchanges@.take(i - 1);
        let exchange = &conversation.exchanges[i - 1];
        let cwd = as_text(&exchange.working_directory);
        proof {
            let upto = conversation.exchanges@.take(i as int);
            assert(upto.drop_last() =~= older);
            let actions = most_recent(exchange_actions(*exchange), remaining as nat);
            let left = (remaining - actions.len()) as nat;
            lemma_with_paths_add(
                seen,
                exchange_paths(*exchange, remaining as nat),
                touched_paths(older, left),
            );
            lemma_with_paths_add(
                seen,
                directory_paths(str_text(cwd)),
                all_action_paths(actions, str_text(cwd)),
            );
        }
        if let Some(dir) = cwd {
            if is_absolute(dir) {
                proof {
                    lemma_with_paths_one(seen, dir@);
                }
                paths.insert(dir.to_owned());
            }
        }
        assert(paths@ == with_paths(seen, directory_paths(str_text(cwd))));
        let used = extract_exchange_actions(exchange, cwd, remaining, &mut paths);
        remaining = remaining - used;
        i = i - 1;
    }
    paths.into_paths()
}

} // verus!
