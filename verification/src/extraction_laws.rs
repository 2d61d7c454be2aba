//! What holds of the paths that are extracted from a conversation.

use vstd::prelude::*;

use crate::conversation::{AIAgentAction, AIAgentActionType, AIAgentExchange};
#[allow(unused_imports)]
use crate::extraction::{
    action_paths, all_action_paths, directory_paths, exchange_actions, exchange_paths, most_recent,
    raw_paths, resolved, resolved_all, touched_paths,
};
#[allow(unused_imports)]
use crate::path_list::{first_of_each, holds_path, is_first_text, law_first_of_each};
#[allow(unused_imports)]
use crate::paths::{is_absolute_path, joined};
#[allow(unused_imports)]
use crate::text::text_of;

verus! {

/// A tool call and the working directory that it was made in.
pub type Call = (AIAgentAction, Option<Seq<char>>);

/// The tool calls of an exchange, from the oldest to the newest.
pub open spec fn exchange_calls(exchange: AIAgentExchange) -> Seq<Call> {
    exchange_actions(exchange).map_values(
        |a: AIAgentAction| (a, text_of(exchange.working_directory)),
    )
}

/// The tool calls of a list of exchanges, from the oldest to the newest.
pub open spec fn all_calls(exchanges: Seq<AIAgentExchange>) -> Seq<Call>
    decreases exchanges.len(),
{
    if exchanges.len() == 0 {
        Seq::empty()
    } else {
        all_calls(exchanges.drop_last()) + exchange_calls(exchanges.last())
    }
}

/// Whether `p` is among the paths that one of `calls` touches.
pub open spec fn some_call_touches(calls: Seq<Call>, p: Seq<char>) -> bool {
    exists|k: int|
        0 <= k < calls.len() && action_paths((#[trigger] calls[k]).0, calls[k].1).contains(p)
}

/// Whether `p` is the absolute working directory of an exchange after which fewer than `budget`
/// tool calls were made.
pub open spec fn is_recent_directory(
    exchanges: Seq<AIAgentExchange>,
    budget: nat,
    p: Seq<char>,
) -> bool {
    exists|k: int| #[trigger] is_recent_directory_at(exchanges, budget, p, k)
}

/// Whether `p` is the absolute working directory of exchange `k`, and fewer than `budget` tool
/// calls were made after that exchange.
pub open spec fn is_recent_directory_at(
    exchanges: Seq<AIAgentExchange>,
    budget: nat,
    p: Seq<char>,
    k: int,
) -> bool {
    &&& 0 <= k < exchanges.len()
    &&& text_of(exchanges[k].working_directory) == Some(p)
    &&& is_absolute_path(p)
    &&& all_calls(exchanges.skip(k + 1)).len() < budget
}

proof fn lemma_recent_directory(exchanges: Seq<AIAgentExchange>, budget: nat, p: Seq<char>)
    requires
        exchanges.len() > 0,
        budget > 0,
    ensures
        is_recent_directory(exchanges, budget, p) <==> {
            let cwd = text_of(exchanges.last().working_directory);
            let used = most_recent(exchange_actions(exchanges.last()), budget).len();
            ||| directory_paths(cwd).contains(p)
            ||| is_recent_directory(exchanges.drop_last(), (budget - used) as nat, p)
        },
{
    let older = exchanges.drop_last();
    let newest = exchanges.last();
    let cwd = text_of(newest.working_directory);
    let used = most_recent(exchange_actions(newest), budget).len();
    let left = (budget - used) as nat;
    let n = exchanges.len() - 1;
    assert(exchanges.skip(n + 1) =~= Seq::empty());
    assert(directory_paths(cwd).contains(p) <==> is_recent_directory_at(exchanges, budget, p, n)) by {
        if is_recent_directory_at(exchanges, budget, p, n) {
            assert(directory_paths(cwd)[0] == p);
        }
    }
    assert forall|k: int| 0 <= k < n implies is_recent_directory_at(older, left, p, k)
        == #[trigger] is_recent_directory_at(exchanges, budget, p, k) by {
        assert(older[k] == exchanges[k]);
        assert(exchanges.skip(k + 1).drop_last() =~= older.skip(k + 1));
        assert(exchanges.skip(k + 1).last() == newest);
        assert(exchange_calls(newest).len() == exchange_actions(newest).len());
    }
    if is_recent_directory(exchanges, budget, p) {
        let k = choose|k: int| #[trigger] is_recent_directory_at(exchanges, budget, p, k);
        if k < n {
            assert(is_recent_directory_at(older, left, p, k));
        }
    }
    if is_recent_directory(older, left, p) {
        let k = choose|k: int| #[trigger] is_recent_directory_at(older, left, p, k);
        assert(is_recent_directory_at(exchanges, budget, p, k));
    }
}

proof fn lemma_most_recent_add<A>(s: Seq<A>, t: Seq<A>, n: nat)
    ensures
        most_recent(s + t, n) == most_recent(s, (n - most_recent(t, n).len()) as nat)
            + most_recent(t, n),
{
    assert(most_recent(s + t, n) =~= most_recent(s, (n - most_recent(t, n).len()) as nat)
        + most_recent(t, n));
}

proof fn lemma_contains_add(s: Seq<Seq<char>>, t: Seq<Seq<char>>, p: Seq<char>)
    ensures
        (s + t).contains(p) <==> s.contains(p) || t.contains(p),
{
    if s.contains(p) {
        let i = choose|i: int| 0 <= i < s.len() && s[i] == p;
        assert((s + t)[i] == p);
    }
    if t.contains(p) {
        let i = choose|i: int| 0 <= i < t.len() && t[i] == p;
        assert((s + t)[s.len() + i] == p);
    }
    if (s + t).contains(p) {
        let i = choose|i: int| 0 <= i < (s + t).len() && (s + t)[i] == p;
        if i < s.len() {
            assert(s[i] == p);
        } else {
            assert(t[i - s.len()] == p);
        }
    }
}

proof fn lemma_touches_add(s: Seq<Call>, t: Seq<Call>, p: Seq<char>)
    ensures
        some_call_touches(s + t, p) <==> some_call_touches(s, p) || some_call_touches(t, p),
{
    if some_call_touches(s, p) {
        let k = choose|k: int|
            0 <= k < s.len() && action_paths((#[trigger] s[k]).0, s[k].1).contains(p);
        assert((s + t)[k] == s[k]);
    }
    if some_call_touches(t, p) {
        let k = choose|k: int|
            0 <= k < t.len() && action_paths((#[trigger] t[k]).0, t[k].1).contains(p);
        assert((s + t)[s.len() + k] == t[k]);
    }
    if some_call_touches(s + t, p) {
        let u = s + t;
        let k = choose|k: int|
            0 <= k < u.len() && action_paths((#[trigger] u[k]).0, u[k].1).contains(p);
        if k < s.len() {
            assert(s[k] == u[k]);
        } else {
            assert(t[k - s.len()] == u[k]);
        }
    }
}

proof fn lemma_action_paths_touch(
    actions: Seq<AIAgentAction>,
    cwd: Option<Seq<char>>,
    p: Seq<char>,
)
    ensures
        all_action_paths(actions, cwd).contains(p) <==> some_call_touches(
            actions.map_values(|a: AIAgentAction| (a, cwd)),
            p,
        ),
    decreases actions.len(),
{
    let calls = actions.map_values(|a: AIAgentAction| (a, cwd));
    if actions.len() > 0 {
        let front = actions.drop_last();
        let front_calls = front.map_values(|a: AIAgentAction| (a, cwd));
        let last: Call = (actions.last(), cwd);
        lemma_action_paths_touch(front, cwd, p);
        lemma_contains_add(all_action_paths(front, cwd), action_paths(actions.last(), cwd), p);
        assert(calls =~= front_calls + seq![last]);
        lemma_touches_add(front_calls, seq![last], p);
        assert(seq![last][0] == last);
        assert(some_call_touches(seq![last], p) <==> action_paths(actions.last(), cwd).contains(p));
    }
}

proof fn lemma_recent_calls(exchange: AIAgentExchange, budget: nat)
    ensures
        most_recent(exchange_calls(exchange), budget) == most_recent(
            exchange_actions(exchange),
            budget,
        ).map_values(|a: AIAgentAction| (a, text_of(exchange.working_directory))),
{
    assert(most_recent(exchange_calls(exchange), budget) =~= most_recent(
        exchange_actions(exchange),
        budget,
    ).map_values(|a: AIAgentAction| (a, text_of(exchange.working_directory))));
}

/// The paths that are gathered with room for `budget` tool calls are exactly those that the
/// `budget` most recent tool calls touch, and the absolute working directories of the exchanges
/// after which there was still room.
pub proof fn law_most_recent_calls(exchanges: Seq<AIAgentExchange>, budget: nat, p: Seq<char>)
    ensures
        touched_paths(exchanges, budget).contains(p) <==> some_call_touches(
            most_recent(all_calls(exchanges), budget),
            p,
        ) || is_recent_directory(exchanges, budget, p),
    decreases exchanges.len(),
{
    if exchanges.len() == 0 || budget == 0 {
        assert(most_recent(all_calls(exchanges), budget) =~= Seq::empty());
        assert(!is_recent_directory(exchanges, budget, p));
    } else {
        let older = exchanges.drop_last();
        let newest = exchanges.last();
        let cwd = text_of(newest.working_directory);
        let actions = most_recent(exchange_actions(newest), budget);
        let left = (budget - actions.len()) as nat;
        law_most_recent_calls(older, left, p);
        lemma_recent_calls(newest, budget);
        lemma_recent_directory(exchanges, budget, p);
        lemma_most_recent_add(all_calls(older), exchange_calls(newest), budget);
        lemma_touches_add(
            most_recent(all_calls(older), left),
            most_recent(exchange_calls(newest), budget),
            p,
        );
        lemma_action_paths_touch(actions, cwd, p);
        lemma_contains_add(directory_paths(cwd), all_action_paths(actions, cwd), p);
        lemma_contains_add(exchange_paths(newest, budget), touched_paths(older, left), p);
    }
}

/// Every path that one of the `budget` most recent tool calls touches is extracted, and so is
/// every absolute working directory of an exchange after which fewer calls were made. Nothing
/// else is.
pub proof fn law_extraction_covers_recent_calls(
    exchanges: Seq<AIAgentExchange>,
    budget: nat,
    p: Seq<char>,
)
    ensures
        some_call_touches(most_recent(all_calls(exchanges), budget), p) || is_recent_directory(
            exchanges,
            budget,
            p,
        ) ==> holds_path(first_of_each(touched_paths(exchanges, budget)), p),
        first_of_each(touched_paths(exchanges, budget)).contains(p) ==> some_call_touches(
            most_recent(all_calls(exchanges), budget),
            p,
        ) || is_recent_directory(exchanges, budget, p),
{
    let touched = touched_paths(exchanges, budget);
    law_most_recent_calls(exchanges, budget, p);
    law_first_of_each(touched);
    if touched.contains(p) {
        let i = choose|i: int| 0 <= i < touched.len() && touched[i] == p;
        assert(holds_path(first_of_each(touched), touched[i]));
    }
    if first_of_each(touched).contains(p) {
        let k = choose|k: int|
            0 <= k < first_of_each(touched).len() && first_of_each(touched)[k] == p;
        assert(is_first_text(touched, first_of_each(touched)[k]));
    }
}

/// What is resolved against an absolute working directory, or against none, is absolute.
pub proof fn law_resolved_is_absolute(raw: Seq<char>, cwd: Option<Seq<char>>)
    requires
        cwd matches Some(c) ==> is_absolute_path(c),
    ensures
        resolved(raw, cwd) matches Some(p) ==> is_absolute_path(p),
{
}

/// Whether the directory is absolute, where there is one.
pub open spec fn is_absolute_or_none(cwd: Option<Seq<char>>) -> bool {
    cwd matches Some(c) ==> is_absolute_path(c)
}

/// Whether a tool call resolves to absolute paths: its working directory is absolute, or it has
/// none and the repository of a review is absolute.
pub open spec fn is_rooted_call(call: Call) -> bool {
    &&& is_absolute_or_none(call.1)
    &&& call.1 is None ==> (call.0.action matches AIAgentActionType::InsertCodeReviewComments {
        repo_path,
    } ==> is_absolute_path(repo_path@))
}

proof fn lemma_resolved_all_absolute(raws: Seq<Seq<char>>, cwd: Option<Seq<char>>, p: Seq<char>)
    requires
        is_absolute_or_none(cwd),
        resolved_all(raws, cwd).contains(p),
    ensures
        is_absolute_path(p),
    decreases raws.len(),
{
    let all = resolved_all(raws, cwd);
    let i = choose|i: int| 0 <= i < all.len() && all[i] == p;
    if raws.len() > 0 {
        let front = resolved_all(raws.drop_last(), cwd);
        if i < front.len() {
            assert(front[i] == p);
            lemma_resolved_all_absolute(raws.drop_last(), cwd, p);
        } else {
            law_resolved_is_absolute(raws.last(), cwd);
        }
    }
}

proof fn lemma_rooted_call_touches_absolute(call: Call, p: Seq<char>)
    requires
        is_rooted_call(call),
        action_paths(call.0, call.1).contains(p),
    ensures
        is_absolute_path(p),
{
    match call.0.action {
        AIAgentActionType::InsertCodeReviewComments { repo_path } => {
            assert(action_paths(call.0, call.1)[0] == p);
        },
        _ => {
            lemma_resolved_all_absolute(raw_paths(call.0.action), call.1, p);
        },
    }
}

/// Where tool calls are made in absolute working directories or in none, every extracted path is
/// absolute. A repository that a review names without a working directory has to be absolute
/// itself.
pub proof fn law_extracted_paths_are_absolute(
    exchanges: Seq<AIAgentExchange>,
    budget: nat,
    p: Seq<char>,
)
    requires
        forall|k: int| 0 <= k < all_calls(exchanges).len() ==> is_rooted_call(
            #[trigger] all_calls(exchanges)[k],
        ),
        first_of_each(touched_paths(exchanges, budget)).contains(p),
    ensures
        is_absolute_path(p),
{
    law_extraction_covers_recent_calls(exchanges, budget, p);
    let calls = most_recent(all_calls(exchanges), budget);
    if some_call_touches(calls, p) {
        let k = choose|k: int|
            0 <= k < calls.len() && action_paths((#[trigger] calls[k]).0, calls[k].1).contains(p);
        let shift = all_calls(exchanges).len() - calls.len();
        assert(calls[k] == all_calls(exchanges)[shift + k]);
        lemma_rooted_call_touches_absolute(calls[k], p);
    }
}

} // verus!
