use vstd::prelude::*;
use crate::balance::{HealthCheckConfig, Token};
use crate::round_robin::{
    any_eligible, failed, failure_step, in_cooldown, select_step, success_step, Node, RoundRobin,
};

verus! {

/// A node after failures reported at each of `times`, in order.
pub open spec fn failed_at(n: Node, c: HealthCheckConfig, times: Seq<u32>) -> Node
    decreases times.len(),
{
    if times.len() == 0 {
        n
    } else {
        failed(failed_at(n, c, times.drop_last()), c, times.last())
    }
}

proof fn lemma_failed_at_count(n: Node, c: HealthCheckConfig, times: Seq<u32>)
    ensures
        failed_at(n, c, times).fail_count >= if times.len() < u32::MAX {
            times.len() as int
        } else {
            u32::MAX as int
        },
    decreases times.len(),
{
    if times.len() > 0 {
        lemma_failed_at_count(n, c, times.drop_last());
    }
}

proof fn lemma_failure_chain(states: Seq<RoundRobin>, token: Token, times: Seq<u32>, i: int)
    requires
        states.len() == times.len() + 1,
        0 <= i <= times.len(),
        states[0].health() is Some,
        (token.0 as int) < states[0].registry().len(),
        forall|j: int|
            0 <= j < times.len() ==> failure_step(
                #[trigger] states[j],
                states[j + 1],
                token,
                times[j],
            ),
    ensures
        states[i].health() == states[0].health(),
        states[i].registry().len() == states[0].registry().len(),
        states[i].registry()[token.0 as int] == failed_at(
            states[0].registry()[token.0 as int],
            states[0].health()->0,
            times.take(i),
        ),
    decreases i,
{
    if i > 0 {
        lemma_failure_chain(states, token, times, i - 1);
        assert(failure_step(states[i - 1], states[i], token, times[i - 1]));
        assert(times.take(i).drop_last() =~= times.take(i - 1));
    } else {
        assert(times.take(0) =~= Seq::<u32>::empty());
    }
}

/// With fewer than two nodes selection needs no weights: no node gives
/// `None`, one node gives its token, whatever the health configuration.
/// With at least one node, selection always gives a token.
pub proof fn lemma_trivial_paths(pre: RoundRobin, post: RoundRobin, now: u32, r: Option<Token>)
    requires
        pre.wf(),
        select_step(pre, post, now, r),
    ensures
        pre.node_count() == 0 ==> r is None,
        pre.node_count() == 1 ==> r == Some(Token(0)),
        pre.node_count() >= 1 ==> r is Some,
{
}

/// After `max_fails` consecutive failures of one node, reported at `times`,
/// that node is cooling down at every moment before the last report plus the
/// timeout, with its effective weight at 1.
pub proof fn lemma_failures_start_cooldown(
    states: Seq<RoundRobin>,
    token: Token,
    times: Seq<u32>,
)
    requires
        states.len() == times.len() + 1,
        states[0].wf(),
        states[0].health() is Some,
        1 <= states[0].health()->0.max_fails <= times.len(),
        (token.0 as int) < states[0].registry().len(),
        forall|i: int|
            0 <= i < times.len() ==> failure_step(
                #[trigger] states[i],
                states[i + 1],
                token,
                times[i],
            ),
    ensures
        ({
            let c = states[0].health()->0;
            let n = states.last().registry()[token.0 as int];
            &&& n.effective_weight == 1
            &&& n.cooldown_until == times.last().saturating_add(c.fail_timeout_secs)
            &&& forall|t: u32| t < n.cooldown_until ==> in_cooldown(n, Some(c), t)
        }),
{
    let c = states[0].health()->0;
    let k = token.0 as int;
    let n0 = states[0].registry()[k];
    lemma_failure_chain(states, token, times, times.len() as int);
    assert(times.take(times.len() as int) =~= times);
    let prev = failed_at(n0, c, times.drop_last());
    lemma_failed_at_count(n0, c, times.drop_last());
    assert(prev.fail_count.saturating_add(1) >= c.max_fails);
}

/// A selection never picks a node that is cooling down while another node
/// can take part, and leaves such a node's state as it was.
pub proof fn lemma_cooldown_excludes(
    pre: RoundRobin,
    post: RoundRobin,
    now: u32,
    r: Option<Token>,
    token: Token,
)
    requires
        pre.wf(),
        select_step(pre, post, now, r),
        (token.0 as int) < pre.registry().len(),
        in_cooldown(pre.registry()[token.0 as int], pre.health(), now),
        any_eligible(pre.registry(), pre.health(), now),
    ensures
        r != Some(token),
        post.registry()[token.0 as int] == pre.registry()[token.0 as int],
{
}

/// Once its window has run out, a node takes part in selection again.
pub proof fn lemma_cooldown_expires(n: Node, c: HealthCheckConfig, now: u32)
    requires
        n.cooldown_until <= now,
    ensures
        !in_cooldown(n, Some(c), now),
{
}

/// Each selection of a node raises its effective weight by exactly one until
/// it reaches the nominal weight, where it stays; the effective weights of
/// the other nodes do not change.
pub proof fn lemma_gradual_recovery(pre: RoundRobin, post: RoundRobin, now: u32, token: Token)
    requires
        pre.wf(),
        pre.node_count() >= 2,
        any_eligible(pre.registry(), pre.health(), now),
        select_step(pre, post, now, Some(token)),
    ensures
        ({
            let before = pre.registry()[token.0 as int];
            let after = post.registry()[token.0 as int];
            &&& before.effective_weight < before.nominal_weight ==> after.effective_weight
                == before.effective_weight + 1
            &&& before.effective_weight == before.nominal_weight ==> after.effective_weight
                == before.nominal_weight
        }),
        forall|j: int|
            0 <= j < pre.registry().len() && j != token.0 ==> (#[trigger] post.registry()[j]).effective_weight
                == pre.registry()[j].effective_weight,
{
}

/// When every node is cooling down, selection still returns the first node.
pub proof fn lemma_fail_open(pre: RoundRobin, post: RoundRobin, now: u32, r: Option<Token>)
    requires
        pre.wf(),
        pre.node_count() >= 1,
        pre.health() is Some,
        forall|j: int|
            0 <= j < pre.registry().len() ==> in_cooldown(
                #[trigger] pre.registry()[j],
                pre.health(),
                now,
            ),
        select_step(pre, post, now, r),
    ensures
        r == Some(Token(0)),
{
}

/// A success ends the failure streak: one failure after it counts as the
/// first, and starts a cooldown only when `max_fails` is at most 1.
pub proof fn lemma_success_resets_streak(
    a: RoundRobin,
    b: RoundRobin,
    c: RoundRobin,
    token: Token,
    now: u32,
)
    requires
        a.wf(),
        a.health() is Some,
        (token.0 as int) < a.registry().len(),
        success_step(a, b, token),
        failure_step(b, c, token, now),
    ensures
        c.registry()[token.0 as int].fail_count == 1,
        c.registry()[token.0 as int].fail_count >= a.health()->0.max_fails <==> a.health()->0.max_fails
            <= 1,
        a.health()->0.max_fails <= 1 && now + a.health()->0.fail_timeout_secs <= u32::MAX ==> {
            &&& c.registry()[token.0 as int].cooldown_until == now + a.health()->0.fail_timeout_secs
            &&& c.registry()[token.0 as int].effective_weight == 1
        },
{
}

/// Below the limits of `u32`, a reported failure adds exactly one to the
/// streak. One that brings the streak to `max_fails` or past it starts the
/// window at exactly `now + fail_timeout_secs` and drops the effective weight
/// to 1; one that does not leaves both as they were. The counter and every
/// other node stay as they were.
pub proof fn lemma_failure_exact(pre: RoundRobin, post: RoundRobin, token: Token, now: u32)
    requires
        pre.wf(),
        pre.health() is Some,
        (token.0 as int) < pre.registry().len(),
        failure_step(pre, post, token, now),
        pre.registry()[token.0 as int].fail_count < u32::MAX,
        now + pre.health()->0.fail_timeout_secs <= u32::MAX,
    ensures
        ({
            let c = pre.health()->0;
            let before = pre.registry()[token.0 as int];
            let after = post.registry()[token.0 as int];
            &&& after.fail_count == before.fail_count + 1
            &&& after.current_weight == before.current_weight
            &&& after.nominal_weight == before.nominal_weight
            &&& before.fail_count + 1 >= c.max_fails ==> {
                &&& after.cooldown_until == now + c.fail_timeout_secs
                &&& after.effective_weight == 1
            }
            &&& before.fail_count + 1 < c.max_fails ==> {
                &&& after.cooldown_until == before.cooldown_until
                &&& after.effective_weight == before.effective_weight
            }
        }),
        post.registry().len() == pre.registry().len(),
        forall|j: int|
            0 <= j < pre.registry().len() && j != token.0 ==> (#[trigger] post.registry()[j])
                == pre.registry()[j],
{
}

} // verus!
