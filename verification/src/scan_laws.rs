//! What holds of a scan through a conversation, message by message.

use vstd::prelude::*;

#[allow(unused_imports)]
use crate::action_laws::{
    in_order, law_every_action_message_counts, law_exchange_actions, law_most_recent_is_the_end,
};
use crate::conversation::{
    AIAgentAction, AIAgentExchange, AIAgentOutputMessage, AIAgentOutputMessageType,
};
#[allow(unused_imports)]
use crate::extraction::{
    action_paths, actions_among, all_action_paths, directory_paths, exchange_actions,
    exchange_paths, most_recent, touched_paths, MAX_TOOL_CALLS_TO_SCAN,
};
#[allow(unused_imports)]
use crate::extraction_laws::{
    all_calls, exchange_calls, is_recent_directory, is_recent_directory_at, law_most_recent_calls,
    some_call_touches, Call,
};
#[allow(unused_imports)]
use crate::path_list::{
    first_of_each, law_with_paths_adds_new_ones, with_paths,
};
#[allow(unused_imports)]
use crate::paths::{components_of, is_absolute_path};
#[allow(unused_imports)]
use crate::text::text_of;

verus! {

/// How many of `messages` are tool calls.
pub open spec fn count_calls(messages: Seq<AIAgentOutputMessage>) -> nat {
    messages.filter(|m: AIAgentOutputMessage| m.message is Action).len()
}

/// How many tool calls an exchange has.
pub open spec fn count_exchange_calls(exchange: AIAgentExchange) -> nat {
    match exchange.output {
        Some(output) => count_calls(output.messages@),
        None => 0,
    }
}

/// How many tool calls a list of exchanges has.
pub open spec fn count_all_calls(exchanges: Seq<AIAgentExchange>) -> nat
    decreases exchanges.len(),
{
    if exchanges.len() == 0 {
        0
    } else {
        count_all_calls(exchanges.drop_last()) + count_exchange_calls(exchanges.last())
    }
}

/// The text of the working directory of an exchange.
pub open spec fn directory_of(exchange: AIAgentExchange) -> Option<Seq<char>> {
    match exchange.working_directory {
        Some(dir) => Some(dir@),
        None => None,
    }
}

/// Message `m` of exchange `x` is the tool call `action`.
pub open spec fn is_call_at(
    exchanges: Seq<AIAgentExchange>,
    x: int,
    m: int,
    action: AIAgentAction,
) -> bool {
    &&& 0 <= x < exchanges.len()
    &&& exchanges[x].output is Some
    &&& 0 <= m < exchanges[x].output->0.messages@.len()
    &&& exchanges[x].output->0.messages@[m].message == AIAgentOutputMessageType::Action(action)
}

/// How many tool calls follow message `m` of exchange `x`, in that exchange and in later ones.
pub open spec fn count_later_calls(exchanges: Seq<AIAgentExchange>, x: int, m: int) -> nat {
    count_calls(exchanges[x].output->0.messages@.skip(m + 1)) + count_all_calls(
        exchanges.skip(x + 1),
    )
}

/// Message `m` of exchange `x` is a tool call that touches `p`, and fewer than `budget` tool
/// calls follow it.
pub open spec fn recent_call_touches(
    exchanges: Seq<AIAgentExchange>,
    budget: nat,
    x: int,
    m: int,
    p: Seq<char>,
) -> bool {
    exists|action: AIAgentAction|
        {
            &&& #[trigger] is_call_at(exchanges, x, m, action)
            &&& count_later_calls(exchanges, x, m) < budget
            &&& action_paths(action, directory_of(exchanges[x])).contains(p)
        }
}

/// `p` is the working directory of exchange `x` and starts with a slash, and fewer than `budget`
/// tool calls were made in later exchanges.
pub open spec fn recent_directory_is(
    exchanges: Seq<AIAgentExchange>,
    budget: nat,
    x: int,
    p: Seq<char>,
) -> bool {
    &&& 0 <= x < exchanges.len()
    &&& exchanges[x].working_directory matches Some(dir) && dir@ == p
    &&& p.len() > 0 && p[0] == '/'
    &&& count_all_calls(exchanges.skip(x + 1)) < budget
}

proof fn lemma_count(messages: Seq<AIAgentOutputMessage>)
    ensures
        actions_among(messages).len() == count_calls(messages),
{
    law_every_action_message_counts(messages);
}

proof fn lemma_count_all(exchanges: Seq<AIAgentExchange>)
    ensures
        all_calls(exchanges).len() == count_all_calls(exchanges),
    decreases exchanges.len(),
{
    if exchanges.len() > 0 {
        lemma_count_all(exchanges.drop_last());
        law_exchange_actions(exchanges.last());
    }
}

proof fn lemma_actions_add(s: Seq<AIAgentOutputMessage>, t: Seq<AIAgentOutputMessage>)
    ensures
        actions_among(s + t) == actions_among(s) + actions_among(t),
    decreases t.len(),
{
    if t.len() == 0 {
        assert(s + t =~= s);
        assert(actions_among(s) + actions_among(t) =~= actions_among(s));
    } else {
        assert((s + t).drop_last() =~= s + t.drop_last());
        lemma_actions_add(s, t.drop_last());
        assert(actions_among(s + t) =~= actions_among(s) + actions_among(t));
    }
}

proof fn lemma_calls_add(s: Seq<AIAgentExchange>, t: Seq<AIAgentExchange>)
    ensures
        all_calls(s + t) == all_calls(s) + all_calls(t),
    decreases t.len(),
{
    if t.len() == 0 {
        assert(s + t =~= s);
        assert(all_calls(s) + all_calls(t) =~= all_calls(s));
    } else {
        assert((s + t).drop_last() =~= s + t.drop_last());
        lemma_calls_add(s, t.drop_last());
        assert(all_calls(s + t) =~= all_calls(s) + all_calls(t));
    }
}

proof fn lemma_action_place(messages: Seq<AIAgentOutputMessage>, m: int, action: AIAgentAction)
    requires
        0 <= m < messages.len(),
        messages[m].message == AIAgentOutputMessageType::Action(action),
    ensures
        count_calls(messages.skip(m + 1)) < actions_among(messages).len(),
        actions_among(messages)[actions_among(messages).len() - 1 - count_calls(
            messages.skip(m + 1),
        )] == action,
{
    let head = messages.take(m + 1);
    let tail = messages.skip(m + 1);
    assert(messages =~= head + tail);
    lemma_actions_add(head, tail);
    lemma_count(tail);
    assert(head.last() == messages[m]);
    assert(actions_among(head).last() == action);
    let k = actions_among(head).len() - 1;
    assert((actions_among(head) + actions_among(tail))[k] == actions_among(head)[k]);
}

proof fn lemma_call_place(exchanges: Seq<AIAgentExchange>, x: int, m: int, action: AIAgentAction)
    requires
        is_call_at(exchanges, x, m, action),
    ensures
        count_later_calls(exchanges, x, m) < all_calls(exchanges).len(),
        all_calls(exchanges)[all_calls(exchanges).len() - 1 - count_later_calls(exchanges, x, m)]
            == (action, directory_of(exchanges[x])),
{
    let messages = exchanges[x].output->0.messages@;
    let head = exchanges.take(x + 1);
    let tail = exchanges.skip(x + 1);
    assert(exchanges =~= head + tail);
    lemma_calls_add(head, tail);
    lemma_count_all(tail);
    lemma_action_place(messages, m, action);
    assert(head.last() == exchanges[x]);
    let own = exchange_calls(exchanges[x]);
    let older = all_calls(head.drop_last());
    assert(all_calls(head) == older + own);
    let k = own.len() - 1 - count_calls(messages.skip(m + 1));
    assert(own[k] == (exchange_actions(exchanges[x])[k], text_of(exchanges[x].working_directory)));
    assert((older + own)[older.len() + k] == own[k]);
    assert((all_calls(head) + all_calls(tail))[older.len() + k] == all_calls(head)[older.len() + k]);
}

/// The message that the `k`th tool call is.
proof fn lemma_message_of_action(messages: Seq<AIAgentOutputMessage>, k: int) -> (m: int)
    requires
        0 <= k < actions_among(messages).len(),
    ensures
        0 <= m < messages.len(),
        messages[m].message == AIAgentOutputMessageType::Action(actions_among(messages)[k]),
        count_calls(messages.skip(m + 1)) == actions_among(messages).len() - 1 - k,
    decreases messages.len(),
{
    let front = messages.drop_last();
    let before = actions_among(front);
    if k < before.len() {
        let m = lemma_message_of_action(front, k);
        assert(messages[m] == front[m]);
        lemma_count(messages.skip(m + 1));
        lemma_count(front.skip(m + 1));
        assert(messages.skip(m + 1).drop_last() =~= front.skip(m + 1));
        assert(messages.skip(m + 1).last() == messages.last());
        m
    } else {
        let m = messages.len() - 1;
        lemma_count(messages.skip(m + 1));
        m
    }
}

/// The exchange and the message that the `k`th tool call is.
proof fn lemma_message_of_call(exchanges: Seq<AIAgentExchange>, k: int) -> (place: (int, int))
    requires
        0 <= k < all_calls(exchanges).len(),
    ensures
        is_call_at(exchanges, place.0, place.1, all_calls(exchanges)[k].0),
        all_calls(exchanges)[k].1 == directory_of(exchanges[place.0]),
        count_later_calls(exchanges, place.0, place.1) == all_calls(exchanges).len() - 1 - k,
    decreases exchanges.len(),
{
    let older = exchanges.drop_last();
    let newest = exchanges.last();
    let n = exchanges.len() - 1;
    if k < all_calls(older).len() {
        let (x, m) = lemma_message_of_call(older, k);
        assert(exchanges[x] == older[x]);
        assert(exchanges.skip(x + 1).drop_last() =~= older.skip(x + 1));
        assert(exchanges.skip(x + 1).last() == newest);
        law_exchange_actions(newest);
        (x, m)
    } else {
        let i = k - all_calls(older).len();
        let messages = newest.output->0.messages@;
        assert(exchange_calls(newest)[i] == (
            exchange_actions(newest)[i],
            text_of(newest.working_directory),
        ));
        let m = lemma_message_of_action(messages, i);
        assert(exchanges.skip(n + 1) =~= Seq::empty());
        (n, m)
    }
}

/// What is gathered from a conversation with room for `budget` tool calls, in terms of its
/// messages: every path of every tool call that fewer than `budget` tool calls follow, every
/// absolute working directory of an exchange that fewer than `budget` tool calls follow, and
/// nothing else.
pub proof fn law_gathered_by_message(exchanges: Seq<AIAgentExchange>, budget: nat, p: Seq<char>)
    ensures
        touched_paths(exchanges, budget).contains(p) <==> {
            ||| exists|x: int, m: int| #[trigger] recent_call_touches(exchanges, budget, x, m, p)
            ||| exists|x: int| #[trigger] recent_directory_is(exchanges, budget, x, p)
        },
{
    let all = all_calls(exchanges);
    let calls = most_recent(all, budget);
    law_most_recent_calls(exchanges, budget, p);
    law_most_recent_is_the_end(all, budget);
    if some_call_touches(calls, p) {
        let k = choose|k: int|
            0 <= k < calls.len() && action_paths((#[trigger] calls[k]).0, calls[k].1).contains(p);
        let n = all.len() - calls.len() + k;
        assert(calls[k] == all[n]);
        let (x, m) = lemma_message_of_call(exchanges, n);
        assert(is_call_at(exchanges, x, m, all[n].0));
        assert(recent_call_touches(exchanges, budget, x, m, p));
    }
    if exists|x: int, m: int| #[trigger] recent_call_touches(exchanges, budget, x, m, p) {
        let (x, m): (int, int) = choose|x: int, m: int| #[trigger]
            recent_call_touches(exchanges, budget, x, m, p);
        let action = choose|action: AIAgentAction|
            {
                &&& #[trigger] is_call_at(exchanges, x, m, action)
                &&& count_later_calls(exchanges, x, m) < budget
                &&& action_paths(action, directory_of(exchanges[x])).contains(p)
            };
        lemma_call_place(exchanges, x, m, action);
        let n = all.len() - 1 - count_later_calls(exchanges, x, m);
        let k = n - (all.len() - calls.len());
        assert(calls[k] == all[n]);
        assert(some_call_touches(calls, p));
    }
    assert forall|x: int| 0 <= x < exchanges.len() implies is_recent_directory_at(
        exchanges,
        budget,
        p,
        x,
    ) == #[trigger] recent_directory_is(exchanges, budget, x, p) by {
        lemma_count_all(exchanges.skip(x + 1));
    }
    if is_recent_directory(exchanges, budget, p) {
        let x = choose|x: int| #[trigger] is_recent_directory_at(exchanges, budget, p, x);
        assert(recent_directory_is(exchanges, budget, x, p));
    }
    if exists|x: int| #[trigger] recent_directory_is(exchanges, budget, x, p) {
        let x = choose|x: int| #[trigger] recent_directory_is(exchanges, budget, x, p);
        assert(is_recent_directory_at(exchanges, budget, p, x));
    }
}

/// Every path of a tool call that fewer than `budget` tool calls follow is extracted, in some
/// spelling.
pub proof fn law_recent_call_is_extracted(
    exchanges: Seq<AIAgentExchange>,
    budget: nat,
    x: int,
    m: int,
    action: AIAgentAction,
    p: Seq<char>,
)
    requires
        is_call_at(exchanges, x, m, action),
        count_later_calls(exchanges, x, m) < budget,
        action_paths(action, directory_of(exchanges[x])).contains(p),
    ensures
        exists|k: int|
            0 <= k < first_of_each(touched_paths(exchanges, budget)).len() && components_of(
                #[trigger] first_of_each(touched_paths(exchanges, budget))[k],
            ) == components_of(p),
{
    let touched = touched_paths(exchanges, budget);
    law_gathered_by_message(exchanges, budget, p);
    assert(recent_call_touches(exchanges, budget, x, m, p));
    law_with_paths_adds_new_ones(Seq::empty(), touched);
    let i = choose|i: int| 0 <= i < touched.len() && touched[i] == p;
    let kept = with_paths(Seq::empty(), touched);
    let k = choose|k: int|
        0 <= k < kept.len() && components_of(#[trigger] kept[k]) == components_of(touched[i]);
    assert(first_of_each(touched)[k] == kept[k]);
}

/// Where a conversation has no more than `budget` tool calls, every path of every one of them is
/// extracted.
pub proof fn law_short_conversation_is_extracted_whole(
    exchanges: Seq<AIAgentExchange>,
    budget: nat,
    x: int,
    m: int,
    action: AIAgentAction,
    p: Seq<char>,
)
    requires
        count_all_calls(exchanges) <= budget,
        is_call_at(exchanges, x, m, action),
        action_paths(action, directory_of(exchanges[x])).contains(p),
    ensures
        exists|k: int|
            0 <= k < first_of_each(touched_paths(exchanges, budget)).len() && components_of(
                #[trigger] first_of_each(touched_paths(exchanges, budget))[k],
            ) == components_of(p),
{
    lemma_call_place(exchanges, x, m, action);
    lemma_count_all(exchanges);
    law_recent_call_is_extracted(exchanges, budget, x, m, action, p);
}

/// A scan of a conversation reaches back through 500 tool calls: every path of a tool call that
/// fewer than 500 tool calls follow is extracted.
pub proof fn law_scan_reaches_back(
    exchanges: Seq<AIAgentExchange>,
    x: int,
    m: int,
    action: AIAgentAction,
    p: Seq<char>,
)
    requires
        is_call_at(exchanges, x, m, action),
        count_later_calls(exchanges, x, m) < 500,
        action_paths(action, directory_of(exchanges[x])).contains(p),
    ensures
        exists|k: int|
            0 <= k < first_of_each(
                touched_paths(exchanges, MAX_TOOL_CALLS_TO_SCAN as nat),
            ).len() && components_of(
                #[trigger] first_of_each(
                    touched_paths(exchanges, MAX_TOOL_CALLS_TO_SCAN as nat),
                )[k],
            ) == components_of(p),
{
    law_recent_call_is_extracted(exchanges, MAX_TOOL_CALLS_TO_SCAN as nat, x, m, action, p);
}

/// A scan of a conversation reaches back no further than through 500 tool calls.
pub proof fn law_scan_stops(exchanges: Seq<AIAgentExchange>, p: Seq<char>)
    requires
        touched_paths(exchanges, MAX_TOOL_CALLS_TO_SCAN as nat).contains(p),
    ensures
        ({
            ||| exists|x: int, m: int| #[trigger] recent_call_touches(exchanges, 500, x, m, p)
            ||| exists|x: int| #[trigger] recent_directory_is(exchanges, 500, x, p)
        }),
{
    law_gathered_by_message(exchanges, MAX_TOOL_CALLS_TO_SCAN as nat, p);
}

/// Every absolute working directory of an exchange that fewer than `budget` tool calls follow is
/// extracted, in some spelling.
pub proof fn law_recent_directory_is_extracted(
    exchanges: Seq<AIAgentExchange>,
    budget: nat,
    x: int,
    p: Seq<char>,
)
    requires
        recent_directory_is(exchanges, budget, x, p),
    ensures
        exists|k: int|
            0 <= k < first_of_each(touched_paths(exchanges, budget)).len() && components_of(
                #[trigger] first_of_each(touched_paths(exchanges, budget))[k],
            ) == components_of(p),
{
    let touched = touched_paths(exchanges, budget);
    law_gathered_by_message(exchanges, budget, p);
    law_with_paths_adds_new_ones(Seq::empty(), touched);
    let i = choose|i: int| 0 <= i < touched.len() && touched[i] == p;
    let kept = with_paths(Seq::empty(), touched);
    let k = choose|k: int|
        0 <= k < kept.len() && components_of(#[trigger] kept[k]) == components_of(touched[i]);
    assert(first_of_each(touched)[k] == kept[k]);
}

/// Nothing is extracted but paths of tool calls and working directories that fewer than `budget`
/// tool calls follow.
pub proof fn law_nothing_else_is_extracted(
    exchanges: Seq<AIAgentExchange>,
    budget: nat,
    k: int,
)
    requires
        0 <= k < first_of_each(touched_paths(exchanges, budget)).len(),
    ensures
        ({
            let p = first_of_each(touched_paths(exchanges, budget))[k];
            ||| exists|x: int, m: int| #[trigger] recent_call_touches(exchanges, budget, x, m, p)
            ||| exists|x: int| #[trigger] recent_directory_is(exchanges, budget, x, p)
        }),
{
    let touched = touched_paths(exchanges, budget);
    let p = first_of_each(touched)[k];
    law_with_paths_adds_new_ones(Seq::empty(), touched);
    assert(touched.contains(p));
    law_gathered_by_message(exchanges, budget, p);
}

/// The newest exchange comes first, and what its tool calls use up of the budget is not there for
/// the older ones, which add nothing once the budget is spent.
pub proof fn law_newest_exchange_comes_first(
    older: Seq<AIAgentExchange>,
    newest: AIAgentExchange,
    budget: nat,
)
    ensures
        touched_paths(older, 0).len() == 0,
        budget > 0 && count_exchange_calls(newest) < budget ==> touched_paths(
            older.push(newest),
            budget,
        ) == touched_paths(seq![newest], budget) + touched_paths(
            older,
            (budget - count_exchange_calls(newest)) as nat,
        ),
        budget > 0 && count_exchange_calls(newest) >= budget ==> touched_paths(
            older.push(newest),
            budget,
        ) == touched_paths(seq![newest], budget),
{
    law_exchange_actions(newest);
    let all = older.push(newest);
    assert(all.drop_last() =~= older);
    assert(seq![newest].drop_last() =~= Seq::empty());
    if budget > 0 {
        law_most_recent_is_the_end(exchange_actions(newest), budget);
        let left = (budget - most_recent(exchange_actions(newest), budget).len()) as nat;
        assert(touched_paths(seq![newest].drop_last(), left) =~= Seq::empty());
        assert(touched_paths(seq![newest], budget) =~= exchange_paths(newest, budget));
        if count_exchange_calls(newest) >= budget {
            assert(touched_paths(older, left) =~= Seq::empty());
            assert(touched_paths(all, budget) =~= exchange_paths(newest, budget));
        }
    }
}

/// The working directory of an exchange comes first, where it starts with a slash.
pub proof fn law_working_directory_comes_first(
    older: Seq<AIAgentExchange>,
    exchange: AIAgentExchange,
    budget: nat,
    dir: String,
)
    requires
        budget > 0,
        exchange.working_directory == Some(dir),
        dir@.len() > 0,
        dir@[0] == '/',
    ensures
        touched_paths(older.push(exchange), budget).len() > 0,
        touched_paths(older.push(exchange), budget)[0] == dir@,
{
    assert(directory_paths(Some(dir@))[0] == dir@);
    assert(older.push(exchange).last() == exchange);
}

proof fn lemma_paths_of_one(
    actions: Seq<AIAgentAction>,
    cwd: Option<Seq<char>>,
    i: int,
) -> (start: int)
    requires
        0 <= i < actions.len(),
    ensures
        0 <= start,
        start + action_paths(actions[i], cwd).len() <= all_action_paths(actions, cwd).len(),
        forall|k: int|
            0 <= k < action_paths(actions[i], cwd).len() ==> all_action_paths(actions, cwd)[start
                + k] == #[trigger] action_paths(actions[i], cwd)[k],
    decreases actions.len(),
{
    let front = actions.drop_last();
    let before = all_action_paths(front, cwd);
    if i < front.len() {
        assert(front[i] == actions[i]);
        lemma_paths_of_one(front, cwd, i)
    } else {
        before.len() as int
    }
}

proof fn lemma_paths_in_order(
    actions: Seq<AIAgentAction>,
    cwd: Option<Seq<char>>,
    i: int,
    j: int,
    p: Seq<char>,
    q: Seq<char>,
)
    requires
        0 <= i < j < actions.len(),
        action_paths(actions[i], cwd).contains(p),
        action_paths(actions[j], cwd).contains(q),
    ensures
        in_order(all_action_paths(actions, cwd), p, q),
    decreases actions.len(),
{
    let front = actions.drop_last();
    let before = all_action_paths(front, cwd);
    let all = all_action_paths(actions, cwd);
    assert(front[i] == actions[i]);
    if j < front.len() {
        assert(front[j] == actions[j]);
        lemma_paths_in_order(front, cwd, i, j, p, q);
        let (a, b): (int, int) = choose|a: int, b: int|
            0 <= a < b < before.len() && #[trigger] before[a] == p && #[trigger] before[b] == q;
        assert(all[a] == p);
        assert(all[b] == q);
    } else {
        let start = lemma_paths_of_one(front, cwd, i);
        let own = action_paths(actions[i], cwd);
        let k = choose|k: int| 0 <= k < own.len() && own[k] == p;
        assert(before[start + k] == own[k]);
        let last = action_paths(actions[j], cwd);
        let l = choose|l: int| 0 <= l < last.len() && last[l] == q;
        assert(all[start + k] == p);
        assert(all[before.len() + l] == q);
    }
}

/// In an exchange the tool calls that fewer than `budget` of its tool calls follow come in the
/// order of their messages, and the paths of each stay in their order.
pub proof fn law_order_in_exchange(
    exchange: AIAgentExchange,
    budget: nat,
    m: int,
    n: int,
    first: AIAgentAction,
    second: AIAgentAction,
    p: Seq<char>,
    q: Seq<char>,
)
    requires
        budget > 0,
        is_call_at(seq![exchange], 0, m, first),
        is_call_at(seq![exchange], 0, n, second),
        count_calls(exchange.output->0.messages@.skip(m + 1)) < budget,
        m < n && action_paths(first, directory_of(exchange)).contains(p) && action_paths(
            second,
            directory_of(exchange),
        ).contains(q) || m == n && in_order(action_paths(first, directory_of(exchange)), p, q),
    ensures
        in_order(touched_paths(seq![exchange], budget), p, q),
{
    let messages = exchange.output->0.messages@;
    let cwd = directory_of(exchange);
    let all = exchange_actions(exchange);
    let recent = most_recent(all, budget);
    let head = directory_paths(cwd);
    let body = all_action_paths(recent, cwd);
    let touched = touched_paths(seq![exchange], budget);
    law_newest_exchange_comes_first(Seq::empty(), exchange, budget);
    law_most_recent_is_the_end(all, budget);
    assert(seq![exchange].drop_last() =~= Seq::empty());
    assert(touched_paths(seq![exchange].drop_last(), (budget - recent.len()) as nat)
        =~= Seq::empty());
    assert(touched =~= head + body);
    lemma_action_place(messages, m, first);
    lemma_action_place(messages, n, second);
    let shift = all.len() - recent.len();
    let i = all.len() - 1 - count_calls(messages.skip(m + 1)) - shift;
    assert(recent[i] == first);
    if m < n {
        assert(messages.skip(m + 1) =~= messages.subrange(m + 1, n + 1) + messages.skip(n + 1));
        lemma_actions_add(messages.subrange(m + 1, n + 1), messages.skip(n + 1));
        lemma_count(messages.skip(m + 1));
        lemma_count(messages.skip(n + 1));
        lemma_count(messages.subrange(m + 1, n + 1));
        law_every_action_message_counts(messages.subrange(m + 1, n + 1));
        assert(messages.subrange(m + 1, n + 1)[n - m - 1] == messages[n]);
        assert(actions_among(messages.subrange(m + 1, n + 1)).contains(second));
        let j = all.len() - 1 - count_calls(messages.skip(n + 1)) - shift;
        assert(recent[j] == second);
        lemma_paths_in_order(recent, cwd, i, j, p, q);
    } else {
        let own = action_paths(first, cwd);
        let start = lemma_paths_of_one(recent, cwd, i);
        let (a, b): (int, int) = choose|a: int, b: int|
            0 <= a < b < own.len() && #[trigger] own[a] == p && #[trigger] own[b] == q;
        assert(body[start + a] == p);
        assert(body[start + b] == q);
    }
    let (a, b): (int, int) = choose|a: int, b: int|
        0 <= a < b < body.len() && #[trigger] body[a] == p && #[trigger] body[b] == q;
    assert(touched[head.len() + a] == p);
    assert(touched[head.len() + b] == q);
}

} // verus!
