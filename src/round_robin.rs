use vstd::prelude::*;
use crate::balance::{BuildError, HealthCheckConfig, Token};
use crate::clock::now_secs;

verus! {

/// Most nodes a balancer can hold: tokens are single bytes.
pub const MAX_NODES: usize = 255;

/// One configured backend, as the selection pass sees it.
#[derive(Clone, Copy, Debug, PartialEq, Eq, Structural)]
pub struct Node {
    /// Running counter of the smooth weighted round-robin; wraps at 64 bits.
    pub current_weight: i64,
    /// Weight used by selection; below `nominal_weight` while recovering.
    pub effective_weight: u8,
    /// Configured weight.
    pub nominal_weight: u8,
    /// Consecutive failures reported since the last success.
    pub fail_count: u32,
    /// End of the cooldown window, in seconds.
    pub cooldown_until: u32,
}

/// A node that has failed `max_fails` times and whose window has not run out
/// at `now` is left out of selection. Without health checking no node is.
pub open spec fn in_cooldown(n: Node, cfg: Option<HealthCheckConfig>, now: u32) -> bool {
    match cfg {
        Some(c) => n.fail_count >= c.max_fails && now < n.cooldown_until,
        None => false,
    }
}

/// The node as a pass leaves it after visiting it, before the winner is
/// settled: an eligible node gains its effective weight, and an expired
/// cooldown mark is cleared.
pub open spec fn visited(n: Node, cfg: Option<HealthCheckConfig>, now: u32) -> Node {
    if in_cooldown(n, cfg, now) {
        n
    } else {
        Node {
            current_weight: n.current_weight.wrapping_add(n.effective_weight as i64),
            cooldown_until: match cfg {
                Some(c) => if n.fail_count >= c.max_fails { 0 } else { n.cooldown_until },
                None => n.cooldown_until,
            },
            ..n
        }
    }
}

/// Sum of the effective weights of the nodes that take part in a pass.
pub open spec fn pass_total(s: Seq<Node>, cfg: Option<HealthCheckConfig>, now: u32) -> int
    decreases s.len(),
{
    if s.len() == 0 {
        0
    } else {
        pass_total(s.drop_last(), cfg, now) + if in_cooldown(s.last(), cfg, now) {
            0
        } else {
            s.last().effective_weight as int
        }
    }
}

/// Some node takes part in a pass at `now`.
pub open spec fn any_eligible(s: Seq<Node>, cfg: Option<HealthCheckConfig>, now: u32) -> bool {
    exists|j: int| 0 <= j < s.len() && !in_cooldown(#[trigger] s[j], cfg, now)
}

/// Node `w` wins the pass: it takes part, no participant's counter exceeds
/// its own, and every participant before it has a smaller counter.
pub open spec fn is_winner(s: Seq<Node>, cfg: Option<HealthCheckConfig>, now: u32, w: int) -> bool {
    &&& 0 <= w < s.len()
    &&& !in_cooldown(s[w], cfg, now)
    &&& forall|j: int|
        0 <= j < s.len() && !in_cooldown(#[trigger] s[j], cfg, now) ==> {
            &&& visited(s[j], cfg, now).current_weight <= visited(s[w], cfg, now).current_weight
            &&& (j < w ==> visited(s[j], cfg, now).current_weight < visited(
                s[w],
                cfg,
                now,
            ).current_weight)
        }
}

/// The winner after the pass: its counter drops by the pass total, and its
/// effective weight climbs one step toward the nominal weight.
pub open spec fn settled(n: Node, total: int) -> Node {
    Node {
        current_weight: n.current_weight.wrapping_sub(total as i64),
        effective_weight: if n.effective_weight < n.nominal_weight {
            (n.effective_weight + 1) as u8
        } else {
            n.effective_weight
        },
        ..n
    }
}

/// The registry after a pass at `now` won by node `w`.
pub open spec fn after_pass(s: Seq<Node>, cfg: Option<HealthCheckConfig>, now: u32, w: int) -> Seq<
    Node,
> {
    Seq::new(
        s.len(),
        |j: int|
            if j == w {
                settled(visited(s[j], cfg, now), pass_total(s, cfg, now))
            } else {
                visited(s[j], cfg, now)
            },
    )
}

proof fn lemma_pass_total_bounds(s: Seq<Node>, cfg: Option<HealthCheckConfig>, now: u32)
    ensures
        0 <= pass_total(s, cfg, now) <= 255 * s.len(),
    decreases s.len(),
{
    if s.len() > 0 {
        lemma_pass_total_bounds(s.drop_last(), cfg, now);
    }
}

/// Sum of the running counters.
pub open spec fn counter_sum(s: Seq<Node>) -> int
    decreases s.len(),
{
    if s.len() == 0 {
        0
    } else {
        counter_sum(s.drop_last()) + s.last().current_weight
    }
}

proof fn lemma_pass_prefix_sum(
    s: Seq<Node>,
    cfg: Option<HealthCheckConfig>,
    now: u32,
    w: int,
    k: int,
)
    requires
        0 <= w < s.len() <= MAX_NODES,
        0 <= k <= s.len(),
        forall|j: int|
            0 <= j < s.len() ==> i64::MIN + 255 * 255 <= #[trigger] s[j].current_weight <= i64::MAX
                - 255,
    ensures
        counter_sum(after_pass(s, cfg, now, w).take(k)) == counter_sum(s.take(k)) + pass_total(
            s.take(k),
            cfg,
            now,
        ) - if w < k {
            pass_total(s, cfg, now)
        } else {
            0
        },
    decreases k,
{
    let a = after_pass(s, cfg, now, w);
    if k > 0 {
        lemma_pass_prefix_sum(s, cfg, now, w, k - 1);
        assert(a.take(k).drop_last() =~= a.take(k - 1));
        assert(s.take(k).drop_last() =~= s.take(k - 1));
        lemma_pass_total_bounds(s, cfg, now);
    } else {
        assert(a.take(0) =~= Seq::<Node>::empty());
        assert(s.take(0) =~= Seq::<Node>::empty());
    }
}

/// A pass moves weight between the counters and creates none: every
/// participant gains its effective weight, the winner gives back their sum,
/// and the counters add up to what they did before (while no counter wraps).
pub proof fn lemma_pass_conserves_weight(
    s: Seq<Node>,
    cfg: Option<HealthCheckConfig>,
    now: u32,
    w: int,
)
    requires
        s.len() <= MAX_NODES,
        is_winner(s, cfg, now, w),
        forall|j: int|
            0 <= j < s.len() ==> i64::MIN + 255 * 255 <= #[trigger] s[j].current_weight <= i64::MAX
                - 255,
    ensures
        counter_sum(after_pass(s, cfg, now, w)) == counter_sum(s),
{
    lemma_pass_prefix_sum(s, cfg, now, w, s.len() as int);
    assert(after_pass(s, cfg, now, w).take(s.len() as int) =~= after_pass(s, cfg, now, w));
    assert(s.take(s.len() as int) =~= s);
}

/// One pass of the smooth weighted round-robin over `nodes` at time `now`.
/// Returns the index of the winner, or `None` when every node is cooling down.
fn select(nodes: &mut Vec<Node>, cfg: Option<HealthCheckConfig>, now: u32) -> (r: Option<usize>)
    requires
        old(nodes)@.len() <= MAX_NODES,
    ensures
        match r {
            Some(w) => {
                &&& is_winner(old(nodes)@, cfg, now, w as int)
                &&& final(nodes)@ == after_pass(old(nodes)@, cfg, now, w as int)
            },
            None => {
                &&& !any_eligible(old(nodes)@, cfg, now)
                &&& final(nodes)@ == old(nodes)@
            },
        },
{
    let ghost s = nodes@;
    let len = nodes.len();
    let mut total: u32 = 0;
    let mut best: Option<usize> = None;
    let mut best_cw: i64 = 0;
    let mut i: usize = 0;
    while i < len
        invariant
            len == s.len() <= MAX_NODES,
            i <= len,
            nodes@.len() == len,
            total as int == pass_total(s.take(i as int), cfg, now),
            total <= 255 * i,
            forall|j: int| 0 <= j < i ==> nodes@[j] == visited(s[j], cfg, now),
            forall|j: int| i <= j < len ==> nodes@[j] == s[j],
            match best {
                Some(w) => is_winner(s.take(i as int), cfg, now, w as int) && best_cw
                    == visited(s[w as int], cfg, now).current_weight,
                None => !any_eligible(s.take(i as int), cfg, now),
            },
        decreases len - i,
    {
        let n = nodes[i];
        proof {
            assert(s.take(i + 1).drop_last() =~= s.take(i as int));
        }
        let cooling = match cfg {
            Some(c) => n.fail_count >= c.max_fails && now < n.cooldown_until,
            None => false,
        };
        if !cooling {
            let mut p = n;
            if let Some(c) = cfg {
                if p.fail_count >= c.max_fails {
                    p.cooldown_until = 0;
                }
            }
            total = total + p.effective_weight as u32;
            p.current_weight = p.current_weight.wrapping_add(p.effective_weight as i64);
            nodes.set(i, p);
            match best {
                Some(_) => {
                    if p.current_weight > best_cw {
                        best = Some(i);
                        best_cw = p.current_weight;
                    }
                },
                None => {
                    best = Some(i);
                    best_cw = p.current_weight;
                },
            }
        }
        proof {
            let t = s.take(i + 1);
            if let Some(w) = best {
                assert forall|j: int| 0 <= j < t.len() && !in_cooldown(#[trigger] t[j], cfg, now) implies {
                    &&& visited(t[j], cfg, now).current_weight <= visited(t[w as int], cfg, now).current_weight
                    &&& (j < w ==> visited(t[j], cfg, now).current_weight < visited(t[w as int], cfg, now).current_weight)
                } by {
                    if j < i {
                        assert(s.take(i as int)[j] == t[j]);
                    }
                }
            } else {
                assert forall|j: int| 0 <= j < t.len() implies in_cooldown(#[trigger] t[j], cfg, now) by {
                    if j < i {
                        assert(s.take(i as int)[j] == t[j]);
                    }
                }
            }
        }
        i = i + 1;
    }
    proof {
        assert(s.take(len as int) =~= s);
        lemma_pass_total_bounds(s, cfg, now);
    }
    match best {
        Some(w) => {
            let mut p = nodes[w];
            p.current_weight = p.current_weight.wrapping_sub(total as i64);
            if p.effective_weight < p.nominal_weight {
                p.effective_weight = p.effective_weight + 1;
            }
            nodes.set(w, p);
            proof {
                assert(nodes@ =~= after_pass(s, cfg, now, w as int));
            }
            Some(w)
        },
        None => {
            proof {
                assert(nodes@ =~= s);
            }
            None
        },
    }
}

/// The node after one reported failure: the streak grows by one, and on
/// reaching `max_fails` a cooldown of `fail_timeout_secs` starts at `now` and
/// the effective weight drops to 1.
pub open spec fn failed(n: Node, c: HealthCheckConfig, now: u32) -> Node {
    let fails = n.fail_count.saturating_add(1);
    if fails >= c.max_fails {
        Node {
            fail_count: fails,
            cooldown_until: now.saturating_add(c.fail_timeout_secs),
            effective_weight: 1,
            ..n
        }
    } else {
        Node { fail_count: fails, ..n }
    }
}

/// The node after one reported success: the failure streak is over.
pub open spec fn succeeded(n: Node) -> Node {
    Node { fail_count: 0, ..n }
}

/// A fresh node of weight `w`.
pub open spec fn fresh(w: u8) -> Node {
    Node {
        current_weight: 0,
        effective_weight: w,
        nominal_weight: w,
        fail_count: 0,
        cooldown_until: 0,
    }
}

/// `r` is what a selection at `now` returns on `pre`, and `post` is the
/// balancer it leaves behind.
pub open spec fn select_step(pre: RoundRobin, post: RoundRobin, now: u32, r: Option<Token>) -> bool {
    let s = pre.registry();
    let cfg = pre.health();
    &&& post.node_count() == pre.node_count()
    &&& post.health() == cfg
    &&& if pre.node_count() == 0 {
        r is None && post.registry() == s
    } else if pre.node_count() == 1 || !any_eligible(s, cfg, now) {
        r == Some(Token(0)) && post.registry() == s
    } else {
        match r {
            Some(t) => {
                &&& is_winner(s, cfg, now, t.0 as int)
                &&& post.registry() == after_pass(s, cfg, now, t.0 as int)
            },
            None => false,
        }
    }
}

/// `post` is `pre` after a failure of `token` reported at `now`.
pub open spec fn failure_step(pre: RoundRobin, post: RoundRobin, token: Token, now: u32) -> bool {
    let s = pre.registry();
    &&& post.node_count() == pre.node_count()
    &&& post.health() == pre.health()
    &&& post.registry() == match pre.health() {
        Some(c) => if (token.0 as int) < s.len() {
            s.update(token.0 as int, failed(s[token.0 as int], c, now))
        } else {
            s
        },
        None => s,
    }
}

/// `post` is `pre` after a success of `token` was reported.
pub open spec fn success_step(pre: RoundRobin, post: RoundRobin, token: Token) -> bool {
    let s = pre.registry();
    &&& post.node_count() == pre.node_count()
    &&& post.health() == pre.health()
    &&& post.registry() == if pre.health() is Some && (token.0 as int) < s.len() {
        s.update(token.0 as int, succeeded(s[token.0 as int]))
    } else {
        s
    }
}

/// Smooth weighted round-robin balancer.
pub struct RoundRobin {
    nodes: Vec<Node>,
    total: u8,
    config: Option<HealthCheckConfig>,
}

impl RoundRobin {
    /// Number of configured nodes.
    pub closed spec fn node_count(&self) -> nat {
        self.total as nat
    }

    /// Health checking configuration, if any.
    pub closed spec fn health(&self) -> Option<HealthCheckConfig> {
        self.config
    }

    /// Per-node state that selection uses. With fewer than two nodes no
    /// weights are needed and the registry is empty.
    pub closed spec fn registry(&self) -> Seq<Node> {
        self.nodes@
    }

    /// The registry matches the node count, and every node's effective
    /// weight lies between 0 and its nominal weight, which is at least 1.
    pub open spec fn wf(&self) -> bool {
        &&& self.node_count() <= MAX_NODES
        &&& self.registry().len() == if self.node_count() <= 1 {
            0
        } else {
            self.node_count()
        }
        &&& forall|i: int|
            0 <= i < self.registry().len() ==> {
                &&& 1 <= (#[trigger] self.registry()[i]).nominal_weight
                &&& self.registry()[i].effective_weight <= self.registry()[i].nominal_weight
            }
    }

    /// Builds a balancer over nodes of the given weights, in token order.
    pub fn new(weights: &[u8], config: Option<HealthCheckConfig>) -> (r: Result<
        RoundRobin,
        BuildError,
    >)
        requires
            forall|i: int| 0 <= i < weights@.len() ==> 1 <= #[trigger] weights@[i],
        ensures
            match r {
                Ok(rr) => {
                    &&& weights@.len() <= MAX_NODES
                    &&& rr.wf()
                    &&& rr.node_count() == weights@.len()
                    &&& rr.health() == config
                    &&& weights@.len() >= 2 ==> rr.registry() == weights@.map_values(
                        |w: u8| fresh(w),
                    )
                },
                Err(e) => e == BuildError::TooManyNodes && weights@.len() > MAX_NODES,
            },
    {
        if weights.len() > MAX_NODES {
            return Err(BuildError::TooManyNodes);
        }
        let mut nodes: Vec<Node> = Vec::new();
        if weights.len() >= 2 {
            let mut i: usize = 0;
            while i < weights.len()
                invariant
                    i <= weights@.len(),
                    nodes@ == weights@.take(i as int).map_values(|w: u8| fresh(w)),
                decreases weights@.len() - i,
            {
                let w = weights[i];
                nodes.push(
                    Node {
                        current_weight: 0,
                        effective_weight: w,
                        nominal_weight: w,
                        fail_count: 0,
                        cooldown_until: 0,
                    },
                );
                proof {
                    assert(weights@.take(i + 1) =~= weights@.take(i as int).push(w));
                    assert(nodes@ =~= weights@.take(i + 1).map_values(|w: u8| fresh(w)));
                }
                i = i + 1;
            }
            proof {
                assert(weights@.take(i as int) =~= weights@);
            }
        }
        Ok(RoundRobin { nodes, total: weights.len() as u8, config })
    }

    /// Number of configured nodes.
    pub fn total(&self) -> (r: u8)
        ensures
            r == self.node_count(),
    {
        self.total
    }

    /// Picks the node for the next request, with `now` as the current time
    /// in seconds. `None` only when no node is configured; when every node is
    /// cooling down, the first node is returned all the same.
    pub fn next_at(&mut self, now: u32) -> (r: Option<Token>)
        requires
            old(self).wf(),
        ensures
            final(self).wf(),
            select_step(*old(self), *final(self), now, r),
    {
        if self.total == 0 {
            return None;
        }
        if self.total == 1 {
            return Some(Token(0));
        }
        let cfg = self.config;
        match select(&mut self.nodes, cfg, now) {
            Some(w) => Some(Token(w as u8)),
            None => Some(Token(0)),
        }
    }

    /// Picks the node for the next request, reading the wall clock for
    /// cooldown decisions.
    pub fn next(&mut self) -> (r: Option<Token>)
        requires
            old(self).wf(),
        ensures
            final(self).wf(),
            exists|now: u32| select_step(*old(self), *final(self), now, r),
    {
        if self.total <= 1 {
            let r = self.next_at(0);
            assert(select_step(*old(self), *self, 0, r));
            return r;
        }
        let now = now_secs();
        let r = self.next_at(now);
        assert(select_step(*old(self), *self, now, r));
        r
    }

    /// Reports a successful request to the node of `token`: its failure
    /// streak ends. Does nothing without health checking or for an unknown
    /// token.
    pub fn on_success(&mut self, token: Token)
        requires
            old(self).wf(),
        ensures
            final(self).wf(),
            success_step(*old(self), *final(self), token),
    {
        if self.config.is_none() {
            return;
        }
        let i = token.0 as usize;
        if i < self.nodes.len() {
            let mut n = self.nodes[i];
            n.fail_count = 0;
            self.nodes.set(i, n);
        }
    }

    /// Reports a failed request to the node of `token`, with `now` as the
    /// current time in seconds. Does nothing without health checking or for
    /// an unknown token.
    pub fn on_failure_at(&mut self, token: Token, now: u32)
        requires
            old(self).wf(),
        ensures
            final(self).wf(),
            failure_step(*old(self), *final(self), token, now),
    {
        if let Some(c) = self.config {
            let i = token.0 as usize;
            if i < self.nodes.len() {
                let mut n = self.nodes[i];
                n.fail_count = n.fail_count.saturating_add(1);
                if n.fail_count >= c.max_fails {
                    n.cooldown_until = now.saturating_add(c.fail_timeout_secs);
                    n.effective_weight = 1;
                }
                self.nodes.set(i, n);
            }
        }
    }

    /// Reports a failed request to the node of `token`, reading the wall
    /// clock to start a cooldown.
    pub fn on_failure(&mut self, token: Token)
        requires
            old(self).wf(),
        ensures
            final(self).wf(),
            exists|now: u32| failure_step(*old(self), *final(self), token, now),
    {
        if self.config.is_none() {
            assert(failure_step(*old(self), *self, token, 0));
            return;
        }
        let now = now_secs();
        self.on_failure_at(token, now);
        assert(failure_step(*old(self), *self, token, now));
    }

    /// The selection state of the node of `token`; `None` when the balancer
    /// keeps none for it (fewer than two nodes, or an unknown token).
    pub fn node(&self, token: Token) -> (r: Option<Node>)
        ensures
            r == if (token.0 as int) < self.registry().len() {
                Some(self.registry()[token.0 as int])
            } else {
                None::<Node>
            },
    {
        let i = token.0 as usize;
        if i < self.nodes.len() {
            Some(self.nodes[i])
        } else {
            None
        }
    }
}

} // verus!
