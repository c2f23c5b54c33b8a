use vstd::prelude::*;
use crate::balance::Token;
use crate::round_robin::{
    after_pass, counter_sum, in_cooldown, is_winner, lemma_pass_conserves_weight, pass_total,
    select_step, visited, Node, RoundRobin,
};

verus! {

/// How many of `picks` are `token`.
pub open spec fn times_picked(picks: Seq<Option<Token>>, token: Token) -> int
    decreases picks.len(),
{
    if picks.len() == 0 {
        0
    } else {
        times_picked(picks.drop_last(), token) + if picks.last() == Some(token) {
            1int
        } else {
            0
        }
    }
}

/// Sum of the nominal weights.
pub open spec fn weight_sum(s: Seq<Node>) -> int
    decreases s.len(),
{
    if s.len() == 0 {
        0
    } else {
        weight_sum(s.drop_last()) + s.last().nominal_weight
    }
}

/// Every node runs at its full weight.
pub open spec fn at_full_weight(s: Seq<Node>) -> bool {
    forall|k: int| 0 <= k < s.len() ==> (#[trigger] s[k]).effective_weight == s[k].nominal_weight
}

/// No counter is near either end of its range.
pub open spec fn counters_in_range(s: Seq<Node>) -> bool {
    forall|k: int|
        0 <= k < s.len() ==> i64::MIN + 255 * 255 <= #[trigger] s[k].current_weight <= i64::MAX - 255
}

proof fn lemma_full_pass_total(s: Seq<Node>, now: u32)
    requires
        at_full_weight(s),
    ensures
        pass_total(s, None, now) == weight_sum(s),
    decreases s.len(),
{
    if s.len() > 0 {
        lemma_full_pass_total(s.drop_last(), now);
    }
}

proof fn lemma_chain(
    states: Seq<RoundRobin>,
    picks: Seq<Option<Token>>,
    nows: Seq<u32>,
    j: int,
    n: int,
)
    requires
        states.len() == picks.len() + 1,
        nows.len() == picks.len(),
        0 <= n <= picks.len(),
        states[0].health() is None,
        states[0].node_count() >= 2,
        states[0].registry().len() == states[0].node_count(),
        states[0].node_count() <= 255,
        at_full_weight(states[0].registry()),
        0 <= j < states[0].registry().len(),
        forall|i: int|
            0 <= i < picks.len() ==> select_step(
                #[trigger] states[i],
                states[i + 1],
                nows[i],
                picks[i],
            ),
        forall|i: int| 0 <= i <= picks.len() ==> counters_in_range(#[trigger] states[i].registry()),
    ensures
        states[n].health() is None,
        states[n].node_count() == states[0].node_count(),
        states[n].registry().len() == states[0].registry().len(),
        at_full_weight(states[n].registry()),
        forall|k: int|
            0 <= k < states[0].registry().len() ==> (#[trigger] states[n].registry()[k]).nominal_weight
                == states[0].registry()[k].nominal_weight,
        states[n].registry()[j].current_weight == states[0].registry()[j].current_weight + n
            * states[0].registry()[j].nominal_weight - weight_sum(states[0].registry())
            * times_picked(picks.take(n), Token(j as u8)),
    decreases n,
{
    if n == 0 {
        assert(picks.take(0) =~= Seq::<Option<Token>>::empty());
    } else {
        let m = n - 1;
        lemma_chain(states, picks, nows, j, m);
        let s = states[m].registry();
        assert(select_step(states[m], states[n], nows[m], picks[m]));
        assert(!in_cooldown(s[0], None, nows[m]));
        lemma_full_pass_total(s, nows[m]);
        assert(weight_sum(s) == weight_sum(states[0].registry())) by {
            lemma_weight_sum_nominal(s, states[0].registry());
        }
        assert(counters_in_range(s));
        assert(picks.take(n).drop_last() =~= picks.take(m));
        let t = picks[m]->0;
        assert(states[n].registry() == after_pass(s, None, nows[m], t.0 as int));
        let w = states[0].registry()[j].nominal_weight as int;
        let total = weight_sum(states[0].registry());
        let c = times_picked(picks.take(m), Token(j as u8));
        let before = s[j].current_weight as int;
        assert(states[m].registry()[j].nominal_weight == w);
        assert(s[j].effective_weight == w);
        assert(times_picked(picks.take(n), Token(j as u8)) == c + if picks[m] == Some(
            Token(j as u8),
        ) {
            1int
        } else {
            0
        });
        if j == t.0 as int {
            assert(picks[m] == Some(Token(j as u8)));
            assert(pass_total(s, None, nows[m]) == total);
            lemma_weight_sum_bounds(s);
            assert(states[n].registry()[j].current_weight == before + w - total);
        } else {
            assert(picks[m] != Some(Token(j as u8)));
            assert(states[n].registry()[j].current_weight == before + w);
        }
        assert(n * w - total * (c + 1) == m * w - total * c + w - total) by (nonlinear_arith)
            requires
                n == m + 1,
        ;
        assert(n * w - total * c == m * w - total * c + w) by (nonlinear_arith)
            requires
                n == m + 1,
        ;
    }
}

proof fn lemma_weight_sum_bounds(s: Seq<Node>)
    ensures
        0 <= weight_sum(s) <= 255 * s.len(),
    decreases s.len(),
{
    if s.len() > 0 {
        lemma_weight_sum_bounds(s.drop_last());
    }
}

proof fn lemma_weight_sum_nominal(a: Seq<Node>, b: Seq<Node>)
    requires
        a.len() == b.len(),
        forall|k: int| 0 <= k < a.len() ==> (#[trigger] a[k]).nominal_weight == b[k].nominal_weight,
    ensures
        weight_sum(a) == weight_sum(b),
    decreases a.len(),
{
    if a.len() > 0 {
        lemma_weight_sum_nominal(a.drop_last(), b.drop_last());
    }
}

/// Without health checking, and while no counter wraps, selection keeps an
/// exact account: after `n` selections from nodes at full weight, a node of
/// weight `w` that was picked `c` times has moved its counter by
/// `n * w - W * c`, where `W` is the sum of the weights. So `c / n` differs
/// from `w / W` by exactly the counter's drift divided by `n * W`.
pub proof fn lemma_selection_account(
    states: Seq<RoundRobin>,
    picks: Seq<Option<Token>>,
    nows: Seq<u32>,
    j: int,
)
    requires
        states.len() == picks.len() + 1,
        nows.len() == picks.len(),
        states[0].wf(),
        states[0].health() is None,
        states[0].node_count() >= 2,
        at_full_weight(states[0].registry()),
        0 <= j < states[0].registry().len(),
        forall|i: int|
            0 <= i < picks.len() ==> select_step(
                #[trigger] states[i],
                states[i + 1],
                nows[i],
                picks[i],
            ),
        forall|i: int| 0 <= i <= picks.len() ==> counters_in_range(#[trigger] states[i].registry()),
    ensures
        states.last().registry()[j].current_weight == states[0].registry()[j].current_weight
            + picks.len() * states[0].registry()[j].nominal_weight - weight_sum(
            states[0].registry(),
        ) * times_picked(picks, Token(j as u8)),
{
    lemma_chain(states, picks, nows, j, picks.len() as int);
    assert(picks.take(picks.len() as int) =~= picks);
}

/// Counters that sum to zero, each above `-total`, on nodes at full weight.
pub open spec fn balanced(s: Seq<Node>, total: int) -> bool {
    &&& at_full_weight(s)
    &&& counter_sum(s) == 0
    &&& forall|k: int| 0 <= k < s.len() ==> (#[trigger] s[k]).current_weight > -total
}

proof fn lemma_sum_above(s: Seq<Node>, total: int)
    requires
        forall|k: int| 0 <= k < s.len() ==> (#[trigger] s[k]).current_weight > -total,
    ensures
        counter_sum(s) >= s.len() * (1 - total),
    decreases s.len(),
{
    if s.len() > 0 {
        lemma_sum_above(s.drop_last(), total);
        let l = s.len() as int;
        assert(l * (1 - total) == (l - 1) * (1 - total) + (1 - total)) by (nonlinear_arith);
    }
}

proof fn lemma_sum_without(s: Seq<Node>, total: int, i: int)
    requires
        0 <= i < s.len(),
        forall|k: int| 0 <= k < s.len() ==> (#[trigger] s[k]).current_weight > -total,
    ensures
        counter_sum(s) >= s[i].current_weight + (s.len() - 1) * (1 - total),
    decreases s.len(),
{
    let d = s.drop_last();
    let l = s.len() as int;
    if i == l - 1 {
        lemma_sum_above(d, total);
    } else {
        lemma_sum_without(d, total, i);
        assert((l - 1) * (1 - total) == (l - 2) * (1 - total) + (1 - total)) by (nonlinear_arith);
    }
}

proof fn lemma_balanced_in_range(s: Seq<Node>, total: int)
    requires
        balanced(s, total),
        1 <= total <= 255 * 255,
        s.len() <= 255,
    ensures
        counters_in_range(s),
        forall|k: int|
            0 <= k < s.len() ==> (#[trigger] s[k]).current_weight <= (s.len() - 1) * (total - 1),
{
    let l = s.len() as int;
    assert((l - 1) * (total - 1) <= 254 * (255 * 255)) by (nonlinear_arith)
        requires
            0 <= l <= 255,
            1 <= total <= 255 * 255,
    ;
    assert forall|k: int| 0 <= k < s.len() implies (#[trigger] s[k]).current_weight <= (s.len() - 1)
        * (total - 1) by {
        lemma_sum_without(s, total, k);
        assert((l - 1) * (1 - total) == -((l - 1) * (total - 1))) by (nonlinear_arith);
    }
}

proof fn lemma_weight_sum_at_least_len(s: Seq<Node>)
    requires
        forall|k: int| 0 <= k < s.len() ==> 1 <= (#[trigger] s[k]).nominal_weight,
    ensures
        weight_sum(s) >= s.len(),
    decreases s.len(),
{
    if s.len() > 0 {
        lemma_weight_sum_at_least_len(s.drop_last());
    }
}

proof fn lemma_some_gain_positive(s: Seq<Node>)
    requires
        forall|k: int| 0 <= k < s.len() ==> (#[trigger] s[k]).current_weight + s[k].effective_weight <= 0,
    ensures
        counter_sum(s) + pass_total(s, None, 0) <= 0,
    decreases s.len(),
{
    if s.len() > 0 {
        lemma_some_gain_positive(s.drop_last());
    }
}

proof fn lemma_pass_total_any_time(s: Seq<Node>, a: u32, b: u32)
    ensures
        pass_total(s, None, a) == pass_total(s, None, b),
    decreases s.len(),
{
    if s.len() > 0 {
        lemma_pass_total_any_time(s.drop_last(), a, b);
    }
}

proof fn lemma_balanced_step(s: Seq<Node>, now: u32, t: int)
    requires
        balanced(s, weight_sum(s)),
        2 <= s.len() <= 255,
        forall|k: int| 0 <= k < s.len() ==> 1 <= (#[trigger] s[k]).nominal_weight,
        is_winner(s, None, now, t),
    ensures
        balanced(after_pass(s, None, now, t), weight_sum(s)),
        forall|k: int|
            0 <= k < s.len() ==> (#[trigger] after_pass(s, None, now, t)[k]).nominal_weight
                == s[k].nominal_weight,
{
    let total = weight_sum(s);
    let a = after_pass(s, None, now, t);
    lemma_weight_sum_at_least_len(s);
    lemma_weight_sum_bounds(s);
    lemma_balanced_in_range(s, total);
    lemma_full_pass_total(s, now);
    lemma_pass_total_any_time(s, now, 0);
    lemma_pass_conserves_weight(s, None, now, t);
    assert(s[t].current_weight + s[t].effective_weight > 0) by {
        if s[t].current_weight + s[t].effective_weight <= 0 {
            assert forall|k: int| 0 <= k < s.len() implies (#[trigger] s[k]).current_weight
                + s[k].effective_weight <= 0 by {
                assert(!in_cooldown(s[k], None, now));
                assert(visited(s[k], None, now).current_weight <= visited(s[t], None, now).current_weight);
            }
            lemma_some_gain_positive(s);
        }
    }
    assert(at_full_weight(a));
    assert forall|k: int| 0 <= k < a.len() implies (#[trigger] a[k]).current_weight > -total by {
        if k == t {
            assert(a[k].current_weight == s[t].current_weight + s[t].effective_weight - total);
        } else {
            assert(a[k].current_weight == s[k].current_weight + s[k].effective_weight);
        }
    }
}

proof fn lemma_balanced_chain(
    states: Seq<RoundRobin>,
    picks: Seq<Option<Token>>,
    nows: Seq<u32>,
    n: int,
)
    requires
        states.len() == picks.len() + 1,
        nows.len() == picks.len(),
        0 <= n <= picks.len(),
        states[0].wf(),
        states[0].health() is None,
        states[0].node_count() >= 2,
        balanced(states[0].registry(), weight_sum(states[0].registry())),
        forall|i: int|
            0 <= i < picks.len() ==> select_step(
                #[trigger] states[i],
                states[i + 1],
                nows[i],
                picks[i],
            ),
    ensures
        states[n].health() is None,
        states[n].node_count() == states[0].node_count(),
        states[n].registry().len() == states[0].registry().len(),
        forall|k: int|
            0 <= k < states[0].registry().len() ==> (#[trigger] states[n].registry()[k]).nominal_weight
                == states[0].registry()[k].nominal_weight,
        balanced(states[n].registry(), weight_sum(states[0].registry())),
    decreases n,
{
    if n > 0 {
        let m = n - 1;
        lemma_balanced_chain(states, picks, nows, m);
        let s = states[m].registry();
        assert(select_step(states[m], states[n], nows[m], picks[m]));
        assert(!in_cooldown(s[0], None, nows[m]));
        lemma_weight_sum_nominal(s, states[0].registry());
        assert forall|k: int| 0 <= k < s.len() implies 1 <= (#[trigger] s[k]).nominal_weight by {
            assert(1 <= states[0].registry()[k].nominal_weight);
        }
        let t = picks[m]->0;
        lemma_balanced_step(s, nows[m], t.0 as int);
    }
}

/// Without health checking, selection from zeroed counters gives each node
/// its share of the weight: after `n` selections, a node of weight `w` that
/// was picked `c` times has `-W < n * w - W * c <= (N - 1) * (W - 1)`, where
/// `W` is the sum of the weights and `N` the number of nodes. So `c / n`
/// differs from `w / W` by less than `N / n`.
pub proof fn lemma_proportional_share(
    states: Seq<RoundRobin>,
    picks: Seq<Option<Token>>,
    nows: Seq<u32>,
    j: int,
)
    requires
        states.len() == picks.len() + 1,
        nows.len() == picks.len(),
        states[0].wf(),
        states[0].health() is None,
        states[0].node_count() >= 2,
        at_full_weight(states[0].registry()),
        forall|k: int|
            0 <= k < states[0].registry().len() ==> (#[trigger] states[0].registry()[k]).current_weight
                == 0,
        0 <= j < states[0].registry().len(),
        forall|i: int|
            0 <= i < picks.len() ==> select_step(
                #[trigger] states[i],
                states[i + 1],
                nows[i],
                picks[i],
            ),
    ensures
        ({
            let big_w = weight_sum(states[0].registry());
            let d = picks.len() * states[0].registry()[j].nominal_weight - big_w * times_picked(
                picks,
                Token(j as u8),
            );
            -big_w < d <= (states[0].registry().len() - 1) * (big_w - 1)
        }),
{
    let s0 = states[0].registry();
    let big_w = weight_sum(s0);
    lemma_zero_sum(s0);
    lemma_weight_sum_bounds(s0);
    lemma_weight_sum_at_least_len(s0);
    assert forall|i: int| 0 <= i <= picks.len() implies counters_in_range(
        #[trigger] states[i].registry(),
    ) by {
        lemma_balanced_chain(states, picks, nows, i);
        lemma_balanced_in_range(states[i].registry(), big_w);
    }
    lemma_selection_account(states, picks, nows, j);
    lemma_balanced_chain(states, picks, nows, picks.len() as int);
    lemma_balanced_in_range(states[picks.len() as int].registry(), big_w);
}

proof fn lemma_zero_sum(s: Seq<Node>)
    requires
        forall|k: int| 0 <= k < s.len() ==> (#[trigger] s[k]).current_weight == 0,
    ensures
        counter_sum(s) == 0,
    decreases s.len(),
{
    if s.len() > 0 {
        lemma_zero_sum(s.drop_last());
    }
}

proof fn lemma_sum_at_least_each(s: Seq<Node>, i: int)
    requires
        0 <= i < s.len(),
        forall|k: int| 0 <= k < s.len() ==> (#[trigger] s[k]).current_weight >= 0,
    ensures
        counter_sum(s) >= s[i].current_weight,
    decreases s.len(),
{
    let d = s.drop_last();
    if i < s.len() - 1 {
        lemma_sum_at_least_each(d, i);
    } else if d.len() > 0 {
        lemma_sum_at_least_each(d, 0);
        lemma_sum_nonnegative(d);
    }
}

proof fn lemma_sum_nonnegative(s: Seq<Node>)
    requires
        forall|k: int| 0 <= k < s.len() ==> (#[trigger] s[k]).current_weight >= 0,
    ensures
        counter_sum(s) >= 0,
    decreases s.len(),
{
    if s.len() > 0 {
        lemma_sum_nonnegative(s.drop_last());
    }
}

/// Without health checking, selection from zeroed counters is periodic:
/// after `k * W` selections, where `W` is the sum of the weights, every
/// selection has given a token, each node of weight `w` has been picked
/// exactly `k * w` times, and every counter is zero again.
pub proof fn lemma_periodic(
    states: Seq<RoundRobin>,
    picks: Seq<Option<Token>>,
    nows: Seq<u32>,
    k: nat,
)
    requires
        states.len() == picks.len() + 1,
        nows.len() == picks.len(),
        states[0].wf(),
        states[0].health() is None,
        states[0].node_count() >= 2,
        at_full_weight(states[0].registry()),
        forall|j: int|
            0 <= j < states[0].registry().len() ==> (#[trigger] states[0].registry()[j]).current_weight
                == 0,
        picks.len() == k * weight_sum(states[0].registry()),
        forall|i: int|
            0 <= i < picks.len() ==> select_step(
                #[trigger] states[i],
                states[i + 1],
                nows[i],
                picks[i],
            ),
    ensures
        forall|i: int| 0 <= i < picks.len() ==> (#[trigger] picks[i]) is Some,
        forall|j: int|
            0 <= j < states[0].registry().len() ==> times_picked(picks, Token(j as u8)) == k
                * (#[trigger] states[0].registry()[j]).nominal_weight,
        states.last().registry().len() == states[0].registry().len(),
        forall|j: int|
            0 <= j < states[0].registry().len() ==> (#[trigger] states.last().registry()[j]).current_weight
                == 0,
{
    let s0 = states[0].registry();
    let big_w = weight_sum(s0);
    let n = picks.len() as int;
    lemma_zero_sum(s0);
    lemma_weight_sum_bounds(s0);
    lemma_weight_sum_at_least_len(s0);
    assert forall|i: int| 0 <= i <= picks.len() implies counters_in_range(
        #[trigger] states[i].registry(),
    ) by {
        lemma_balanced_chain(states, picks, nows, i);
        lemma_balanced_in_range(states[i].registry(), big_w);
    }
    assert forall|i: int| 0 <= i < picks.len() implies (#[trigger] picks[i]) is Some by {
        lemma_balanced_chain(states, picks, nows, i);
        assert(select_step(states[i], states[i + 1], nows[i], picks[i]));
    }
    lemma_balanced_chain(states, picks, nows, n);
    let last = states[n].registry();
    assert forall|j: int| 0 <= j < s0.len() implies (#[trigger] last[j]).current_weight >= 0
        && last[j].current_weight == big_w * (k * s0[j].nominal_weight - times_picked(
        picks,
        Token(j as u8),
    )) by {
        lemma_selection_account(states, picks, nows, j);
        let x = k * s0[j].nominal_weight - times_picked(picks, Token(j as u8));
        let w = s0[j].nominal_weight as int;
        let c = times_picked(picks, Token(j as u8));
        assert(n * w - big_w * c == big_w * x) by (nonlinear_arith)
            requires
                n == k * big_w,
                x == k * w - c,
        ;
        assert(big_w * x >= 0) by (nonlinear_arith)
            requires
                big_w * x > -big_w,
                big_w >= 1,
        ;
    }
    assert forall|j: int| 0 <= j < s0.len() implies (#[trigger] last[j]).current_weight == 0 by {
        lemma_sum_at_least_each(last, j);
    }
    assert forall|j: int| 0 <= j < s0.len() implies times_picked(picks, Token(j as u8)) == k
        * (#[trigger] s0[j]).nominal_weight by {
        assert(last[j].current_weight == 0);
        let x = k * s0[j].nominal_weight - times_picked(picks, Token(j as u8));
        assert(x == 0) by (nonlinear_arith)
            requires
                big_w * x == 0,
                big_w >= 1,
        ;
    }
}

} // verus!
