//! Smooth weighted round robin with failure-driven decay of effective weights.
//!
//! Every server has a static weight, an effective weight in `[0, weight]`
//! and a current weight that accumulates between picks. Each tick of
//! `next` raises every current weight by the effective weight, recovers every
//! effective weight by one towards the static weight, and picks the first
//! server of greatest current weight, whose current weight then drops by the
//! tick's total. `fail` lowers a server's effective weight by a third of its
//! static weight (at least one), never below zero.
//!
//! `next` and `fail` take the balancer by `&mut`, so every tick and every
//! failure report runs alone against the whole registry.
use vstd::prelude::*;

verus! {

/// Largest static weight that a balancer accepts.
pub const MAX_WEIGHT: i32 = 1_000_000;

/// Largest number of servers that a balancer holds. Current weights stay
/// within `MAX_SERVERS * MAX_SERVERS * MAX_WEIGHT` of zero, and this is about
/// the largest count for which that bound still fits in `i64`.
pub const MAX_SERVERS: usize = 1048576;

/// What a server is, as far as the selection rules are concerned.
pub ghost struct ServerView {
    pub url: Seq<char>,
    pub weight: int,
    pub effect: int,
    pub current: int,
}

/// A destination of the weighted balancer, or a snapshot of one.
#[derive(Debug)]
pub struct Server {
    weight: i32,
    effect_weight: i32,
    cur_weight: i64,
    url: String,
}

impl View for Server {
    type V = ServerView;

    closed spec fn view(&self) -> ServerView {
        ServerView {
            url: self.url@,
            weight: self.weight as int,
            effect: self.effect_weight as int,
            current: self.cur_weight as int,
        }
    }
}

/// Effective weight of a server that has just been created: one, or zero
/// for a server whose static weight is below one.
pub open spec fn initial_effect(weight: int) -> int {
    if weight >= 1 {
        1
    } else {
        0
    }
}

/// A server as it is created.
pub open spec fn fresh(url: Seq<char>, weight: int) -> ServerView {
    ServerView { url, weight, effect: initial_effect(weight), current: 0 }
}

/// The effective weight, bounded by the static weight, within the limits.
pub open spec fn server_ok(c: ServerView) -> bool {
    &&& 0 <= c.effect <= c.weight <= MAX_WEIGHT
    &&& -(MAX_SERVERS * MAX_WEIGHT) <= c.current <= MAX_SERVERS * MAX_SERVERS * MAX_WEIGHT
}

/// What a reported failure takes off the effective weight.
pub open spec fn decay(weight: int) -> int {
    if weight / 3 >= 1 {
        weight / 3
    } else {
        1
    }
}

/// A server after one reported failure.
pub open spec fn after_fail(c: ServerView) -> ServerView {
    ServerView {
        effect: if c.effect - decay(c.weight) >= 0 {
            c.effect - decay(c.weight)
        } else {
            0
        },
        ..c
    }
}

/// The servers after a failure is reported for `url`.
pub open spec fn fail_all(s: Seq<ServerView>, url: Seq<char>) -> Seq<ServerView> {
    s.map_values(|c: ServerView| if c.url == url { after_fail(c) } else { c })
}

/// The current weight that a server has in a tick before the pick.
pub open spec fn score(c: ServerView) -> int {
    c.current + c.effect
}

/// A server after the part of a tick that every server goes through.
pub open spec fn raised(c: ServerView) -> ServerView {
    ServerView {
        effect: if c.effect < c.weight {
            c.effect + 1
        } else {
            c.effect
        },
        current: score(c),
        ..c
    }
}

/// Sum of the effective weights.
pub open spec fn total_effect(s: Seq<ServerView>) -> int
    decreases s.len(),
{
    if s.len() == 0 {
        0
    } else {
        total_effect(s.drop_last()) + s.last().effect
    }
}

/// Sum of the current weights.
pub open spec fn total_current(s: Seq<ServerView>) -> int
    decreases s.len(),
{
    if s.len() == 0 {
        0
    } else {
        total_current(s.drop_last()) + s.last().current
    }
}

/// `i` is the first server of greatest score.
pub open spec fn is_first_max(s: Seq<ServerView>, i: int) -> bool {
    &&& 0 <= i < s.len()
    &&& forall|j: int| 0 <= j < i ==> score(#[trigger] s[j]) < score(s[i])
    &&& forall|j: int| 0 <= j < s.len() ==> score(#[trigger] s[j]) <= score(s[i])
}

/// The server that a tick picks.
pub open spec fn pick_index(s: Seq<ServerView>) -> int {
    choose|i: int| is_first_max(s, i)
}

/// The servers after a tick that picks `i`.
pub open spec fn tick(s: Seq<ServerView>, i: int) -> Seq<ServerView> {
    Seq::new(
        s.len(),
        |j: int|
            if j == i {
                ServerView { current: raised(s[j]).current - total_effect(s), ..raised(s[j]) }
            } else {
                raised(s[j])
            },
    )
}


/// The effective weights add up to at most `MAX_WEIGHT` per server.
proof fn lemma_total_effect_bounds(s: Seq<ServerView>)
    requires
        forall|i: int| 0 <= i < s.len() ==> server_ok(#[trigger] s[i]),
    ensures
        0 <= total_effect(s) <= s.len() * MAX_WEIGHT,
    decreases s.len(),
{
    if s.len() > 0 {
        let t = s.drop_last();
        assert forall|i: int| 0 <= i < t.len() implies server_ok(#[trigger] t[i]) by {
            assert(t[i] == s[i]);
        }
        lemma_total_effect_bounds(t);
        assert(server_ok(s[s.len() - 1]));
    }
}

/// The sum of the scores is not positive when no score is.
proof fn lemma_scores_sum_nonpos(s: Seq<ServerView>)
    requires
        forall|j: int| 0 <= j < s.len() ==> score(#[trigger] s[j]) <= 0,
    ensures
        total_current(s) + total_effect(s) <= 0,
    decreases s.len(),
{
    if s.len() > 0 {
        let t = s.drop_last();
        assert(score(s[s.len() - 1]) <= 0);
        assert forall|j: int| 0 <= j < t.len() implies score(#[trigger] t[j]) <= 0 by {
            assert(t[j] == s[j]);
            assert(score(s[j]) <= 0);
        }
        lemma_scores_sum_nonpos(t);
    }
}

/// The sum of the scores is at most the score of any server when no score
/// is positive.
proof fn lemma_scores_below_each(s: Seq<ServerView>, k: int)
    requires
        0 <= k < s.len(),
        forall|j: int| 0 <= j < s.len() ==> score(#[trigger] s[j]) <= 0,
    ensures
        total_current(s) + total_effect(s) <= score(s[k]),
    decreases s.len(),
{
    let t = s.drop_last();
    let last = s.len() - 1;
    assert(score(s[last]) <= 0);
    assert forall|j: int| 0 <= j < t.len() implies score(#[trigger] t[j]) <= 0 by {
        assert(t[j] == s[j]);
        assert(score(s[j]) <= 0);
    }
    if k == last {
        lemma_scores_sum_nonpos(t);
    } else {
        lemma_scores_below_each(t, k);
        assert(t[k] == s[k]);
    }
}

/// Current weights that are each at least `low` add up to at least
/// `low` per server.
proof fn lemma_current_sum_low(s: Seq<ServerView>, low: int)
    requires
        forall|j: int| 0 <= j < s.len() ==> low <= (#[trigger] s[j]).current,
    ensures
        total_current(s) >= s.len() * low,
    decreases s.len(),
{
    if s.len() > 0 {
        let t = s.drop_last();
        assert(low <= s[s.len() - 1].current);
        assert forall|j: int| 0 <= j < t.len() implies low <= (#[trigger] t[j]).current by {
            assert(t[j] == s[j]);
            assert(low <= s[j].current);
        }
        lemma_current_sum_low(t, low);
        assert(t.len() * low + low == s.len() * low) by (nonlinear_arith)
            requires
                s.len() == t.len() + 1,
        ;
    }
}

/// A sum of current weights that are each at least `low` bounds each one of
/// them from above.
proof fn lemma_current_each_below(s: Seq<ServerView>, k: int, low: int)
    requires
        0 <= k < s.len(),
        forall|j: int| 0 <= j < s.len() ==> low <= (#[trigger] s[j]).current,
    ensures
        total_current(s) >= s[k].current + (s.len() - 1) * low,
    decreases s.len(),
{
    let t = s.drop_last();
    let last = s.len() - 1;
    assert(low <= s[last].current);
    assert forall|j: int| 0 <= j < t.len() implies low <= (#[trigger] t[j]).current by {
        assert(t[j] == s[j]);
        assert(low <= s[j].current);
    }
    if k == last {
        lemma_current_sum_low(t, low);
    } else {
        lemma_current_each_below(t, k, low);
        assert(t[k] == s[k]);
        assert((t.len() - 1) * low + low == t.len() * low) by (nonlinear_arith);
    }
}

/// How a tick moves the sum of current weights: up by every effective
/// weight, down by `e` at `i`.
proof fn lemma_current_after(s: Seq<ServerView>, t: Seq<ServerView>, i: int, e: int)
    requires
        s.len() == t.len(),
        forall|j: int|
            0 <= j < s.len() ==> (#[trigger] t[j]).current == s[j].current + s[j].effect - (if j
                == i {
                e
            } else {
                0
            }),
    ensures
        total_current(t) == total_current(s) + total_effect(s) - (if 0 <= i < s.len() {
            e
        } else {
            0
        }),
    decreases s.len(),
{
    if s.len() > 0 {
        let last = s.len() - 1;
        assert(t[last].current == s[last].current + s[last].effect - (if last == i {
            e
        } else {
            0
        }));
        assert forall|j: int| 0 <= j < s.drop_last().len() implies (#[trigger] t.drop_last()[
            j]).current == s.drop_last()[j].current + s.drop_last()[j].effect - (if j == i {
            e
        } else {
            0
        }) by {
            assert(t[j].current == s[j].current + s[j].effect - (if j == i {
                e
            } else {
                0
            }));
        }
        lemma_current_after(s.drop_last(), t.drop_last(), i, e);
    }
}

/// There is one first server of greatest score.
proof fn lemma_first_max_unique(s: Seq<ServerView>, i: int)
    requires
        is_first_max(s, i),
    ensures
        pick_index(s) == i,
{
    let k = pick_index(s);
    assert(is_first_max(s, k));
    if k < i {
        assert(score(s[k]) < score(s[i]));
        assert(score(s[i]) <= score(s[k]));
    }
    if i < k {
        assert(score(s[i]) < score(s[k]));
        assert(score(s[k]) <= score(s[i]));
    }
}

/// Equal current weights, place by place, have equal sums.
proof fn lemma_current_same(s: Seq<ServerView>, t: Seq<ServerView>)
    requires
        s.len() == t.len(),
        forall|j: int| 0 <= j < s.len() ==> (#[trigger] t[j]).current == s[j].current,
    ensures
        total_current(t) == total_current(s),
    decreases s.len(),
{
    if s.len() > 0 {
        let last = s.len() - 1;
        assert(t[last].current == s[last].current);
        assert forall|j: int| 0 <= j < s.drop_last().len() implies (#[trigger] t.drop_last()[
            j]).current == s.drop_last()[j].current by {
            assert(t[j].current == s[j].current);
        }
        lemma_current_same(s.drop_last(), t.drop_last());
    }
}

/// The servers hold one of this url.
pub open spec fn has_url(s: Seq<ServerView>, url: Seq<char>) -> bool {
    exists|j: int| 0 <= j < s.len() && (#[trigger] s[j]).url == url
}

/// What inserting a server of this url and static weight returns, and the
/// servers after it: a weight out of `[0, MAX_WEIGHT]` is refused, a url
/// that is present is kept as it is, a full balancer refuses, and otherwise
/// a fresh server goes at the end.
pub open spec fn insertion(s: Seq<ServerView>, url: Seq<char>, weight: int) -> (
    Result<(), InsertError>,
    Seq<ServerView>,
) {
    if !(0 <= weight <= MAX_WEIGHT) {
        (Err(InsertError::InvalidWeight), s)
    } else if has_url(s, url) {
        (Ok(()), s)
    } else if s.len() >= MAX_SERVERS {
        (Err(InsertError::Full), s)
    } else {
        (Ok(()), s.push(fresh(url, weight)))
    }
}

/// The servers after `k` ticks.
pub open spec fn ticks(s: Seq<ServerView>, k: nat) -> Seq<ServerView>
    decreases k,
{
    if k == 0 {
        s
    } else {
        let p = ticks(s, (k - 1) as nat);
        tick(p, pick_index(p))
    }
}

/// The servers after `k` failures reported for `url`.
pub open spec fn fails(s: Seq<ServerView>, url: Seq<char>, k: nat) -> Seq<ServerView>
    decreases k,
{
    if k == 0 {
        s
    } else {
        fail_all(fails(s, url, (k - 1) as nat), url)
    }
}

/// A lone server is picked by every tick, and its effective weight climbs
/// by one per tick until it reaches the static weight, where it stays; its
/// current weight does not move.
pub proof fn lemma_single_server_ramp(s: Seq<ServerView>, k: nat)
    requires
        s.len() == 1,
        0 <= s[0].effect <= s[0].weight,
    ensures
        ticks(s, k).len() == 1,
        pick_index(ticks(s, k)) == 0,
        ticks(s, k)[0] == (ServerView {
            effect: if s[0].effect + k <= s[0].weight {
                s[0].effect + k
            } else {
                s[0].weight
            },
            ..s[0]
        }),
    decreases k,
{
    if k > 0 {
        lemma_single_server_ramp(s, (k - 1) as nat);
        let p = ticks(s, (k - 1) as nat);
        assert(p.drop_last() =~= Seq::<ServerView>::empty());
        assert(total_effect(p.drop_last()) == 0);
        assert(p.last() == p[0]);
        assert(total_effect(p) == p[0].effect);
        let q = ticks(s, k);
        assert(q.len() == 1);
        assert(is_first_max(q, 0));
        lemma_first_max_unique(q, 0);
    } else {
        assert(is_first_max(s, 0));
        lemma_first_max_unique(s, 0);
    }
}

/// After `k` failures reported for a server, with no tick between them, its
/// effective weight is what it was less `k` times its decay, and no less than
/// zero; from a full effective weight that is the static weight less `k`
/// decays. The other servers keep theirs.
pub proof fn lemma_repeated_fail(s: Seq<ServerView>, url: Seq<char>, k: nat, j: int)
    requires
        0 <= j < s.len(),
        0 <= s[j].effect,
        0 <= s[j].weight,
    ensures
        fails(s, url, k).len() == s.len(),
        s[j].url == url ==> fails(s, url, k)[j] == (ServerView {
            effect: if s[j].effect - k * decay(s[j].weight) >= 0 {
                s[j].effect - k * decay(s[j].weight)
            } else {
                0
            },
            ..s[j]
        }),
        s[j].url != url ==> fails(s, url, k)[j] == s[j],
    decreases k,
{
    if k > 0 {
        lemma_repeated_fail(s, url, (k - 1) as nat, j);
        let d = decay(s[j].weight);
        assert(d >= 1);
        assert((k - 1) * d + d == k * d) by (nonlinear_arith);
    }
}

/// How many of the first `k` ticks pick server `i`.
pub open spec fn picks(s: Seq<ServerView>, k: nat, i: int) -> nat
    decreases k,
{
    if k == 0 {
        0
    } else {
        picks(s, (k - 1) as nat, i) + if pick_index(ticks(s, (k - 1) as nat)) == i {
            1nat
        } else {
            0nat
        }
    }
}

/// A tick of two servers picks the second only when its score is greater.
proof fn lemma_two_tick(s: Seq<ServerView>)
    requires
        s.len() == 2,
    ensures
        pick_index(s) == if score(s[1]) > score(s[0]) {
            1int
        } else {
            0int
        },
        total_effect(s) == s[0].effect + s[1].effect,
{
    let p: int = if score(s[1]) > score(s[0]) {
        1
    } else {
        0
    };
    assert(is_first_max(s, p));
    lemma_first_max_unique(s, p);
    assert(s.drop_last().drop_last() =~= Seq::<ServerView>::empty());
    assert(total_effect(s.drop_last().drop_last()) == 0);
    assert(s.drop_last().last() == s[0]);
    assert(total_effect(s.drop_last()) == s[0].effect);
    assert(s.last() == s[1]);
}

/// The first four ticks of servers of weights one and five, from cold.
proof fn lemma_warm_up(ua: Seq<char>, ub: Seq<char>)
    ensures
        ({
            let s = pair(ua, ub, 1, 0, 1, 0);
            &&& ticks(s, 4) == cycle(ua, ub, 0)
            &&& picks(s, 1, 0) == 1 && picks(s, 1, 1) == 0
            &&& picks(s, 2, 0) == 1 && picks(s, 2, 1) == 1
            &&& picks(s, 3, 0) == 1 && picks(s, 3, 1) == 2
            &&& picks(s, 4, 0) == 1 && picks(s, 4, 1) == 3
        }),
{
    let s = pair(ua, ub, 1, 0, 1, 0);
    assert(ticks(s, 0) == s);
    lemma_two_tick(s);
    assert(ticks(s, 1) =~= pair(ua, ub, 1, -1, 2, 1));
    lemma_two_tick(ticks(s, 1));
    assert(ticks(s, 2) =~= pair(ua, ub, 1, 0, 3, 0));
    lemma_two_tick(ticks(s, 2));
    assert(ticks(s, 3) =~= pair(ua, ub, 1, 1, 4, -1));
    lemma_two_tick(ticks(s, 3));
    assert(ticks(s, 4) =~= cycle(ua, ub, 0));
    assert(picks(s, 0, 0) == 0 && picks(s, 0, 1) == 0);
    assert(picks(s, 1, 0) == 1 && picks(s, 1, 1) == 0);
    assert(picks(s, 2, 0) == 1 && picks(s, 2, 1) == 1);
    assert(picks(s, 3, 0) == 1 && picks(s, 3, 1) == 2);
    assert(picks(s, 4, 0) == 1 && picks(s, 4, 1) == 3);
}

/// Two servers of static weights one and five, both at effective weight
/// `e1`, `e5` and current weights `c1`, `c5`.
spec fn pair(ua: Seq<char>, ub: Seq<char>, e1: int, c1: int, e5: int, c5: int) -> Seq<
    ServerView,
> {
    seq![
        ServerView { url: ua, weight: 1, effect: e1, current: c1 },
        ServerView { url: ub, weight: 5, effect: e5, current: c5 },
    ]
}

/// The state that the servers of weights one and five come back to, `m`
/// ticks into each round of six.
spec fn cycle(ua: Seq<char>, ub: Seq<char>, m: int) -> Seq<ServerView> {
    if m == 0 {
        pair(ua, ub, 1, 2, 5, -2)
    } else if m == 1 {
        pair(ua, ub, 1, -3, 5, 3)
    } else if m == 2 {
        pair(ua, ub, 1, -2, 5, 2)
    } else if m == 3 {
        pair(ua, ub, 1, -1, 5, 1)
    } else if m == 4 {
        pair(ua, ub, 1, 0, 5, 0)
    } else {
        pair(ua, ub, 1, 1, 5, -1)
    }
}

proof fn lemma_cycle_step(ua: Seq<char>, ub: Seq<char>, m: int)
    requires
        0 <= m < 6,
    ensures
        tick(cycle(ua, ub, m), pick_index(cycle(ua, ub, m))) =~= cycle(ua, ub, (m + 1) % 6),
        pick_index(cycle(ua, ub, m)) == if m == 0 {
            0int
        } else {
            1int
        },
{
    lemma_two_tick(cycle(ua, ub, m));
}

proof fn lemma_cycle_run(ua: Seq<char>, ub: Seq<char>, m: nat)
    ensures
        ticks(pair(ua, ub, 1, 0, 1, 0), 4 + m) == cycle(ua, ub, (m % 6) as int),
        picks(pair(ua, ub, 1, 0, 1, 0), 4 + m, 0) == 1 + (m + 5) / 6,
        picks(pair(ua, ub, 1, 0, 1, 0), 4 + m, 0) + picks(pair(ua, ub, 1, 0, 1, 0), 4 + m, 1)
            == 4 + m,
    decreases m,
{
    let s = pair(ua, ub, 1, 0, 1, 0);
    if m == 0 {
        lemma_warm_up(ua, ub);
    } else {
        let k = (m - 1) as nat;
        lemma_cycle_run(ua, ub, k);
        lemma_cycle_step(ua, ub, (k % 6) as int);
        assert((k + 1) % 6 == m % 6);
        assert(ticks(s, 4 + m) == tick(ticks(s, 4 + k), pick_index(ticks(s, 4 + k))));
        assert(k % 6 == 0 ==> (m + 5) / 6 == (k + 5) / 6 + 1);
        assert(k % 6 != 0 ==> (m + 5) / 6 == (k + 5) / 6);
    }
}

/// Of two servers inserted with static weights one and five, the first
/// takes one pick in six: after `n` ticks its count of picks is within
/// seven sixths of a pick of `n / 6`, and the second takes all the others.
pub proof fn lemma_one_to_five_share(ua: Seq<char>, ub: Seq<char>, n: nat)
    ensures
        ({
            let s = seq![fresh(ua, 1), fresh(ub, 5)];
            &&& picks(s, n, 0) + picks(s, n, 1) == n
            &&& -7 <= 6 * picks(s, n, 0) - n <= 7
        }),
{
    let s = pair(ua, ub, 1, 0, 1, 0);
    assert(seq![fresh(ua, 1), fresh(ub, 5)] =~= s);
    if n >= 4 {
        lemma_cycle_run(ua, ub, (n - 4) as nat);
    } else {
        lemma_warm_up(ua, ub);
    }
}

impl Server {
    /// A server with effective weight one (zero where `weight` is below one)
    /// and current weight zero.
    pub fn new(url: String, weight: i32) -> (r: Server)
        ensures
            r@ == fresh(url@, weight as int),
    {
        Server { effect_weight: if weight >= 1 { 1 } else { 0 }, cur_weight: 0, weight, url }
    }

    pub fn get_weight(&self) -> (r: i32)
        ensures
            r == self@.weight,
    {
        self.weight
    }

    pub fn get_effect_weight(&self) -> (r: i32)
        ensures
            r == self@.effect,
    {
        self.effect_weight
    }

    pub fn get_cur_weight(&self) -> (r: i64)
        ensures
            r == self@.current,
    {
        self.cur_weight
    }

    pub fn get_url(&self) -> (r: &String)
        ensures
            r@ == self@.url,
    {
        &self.url
    }

    /// A copy of the server as it is now.
    fn snapshot(&self) -> (r: Server)
        ensures
            r@ == self@,
    {
        Server {
            weight: self.weight,
            effect_weight: self.effect_weight,
            cur_weight: self.cur_weight,
            url: self.url.clone(),
        }
    }
}

/// Returned by a pick from a balancer without servers.
#[derive(Debug, PartialEq, Eq, Structural)]
pub struct EmptySetError;

/// Why a server was not inserted.
#[derive(Debug, PartialEq, Eq, Structural)]
pub enum InsertError {
    /// The static weight is negative or above `MAX_WEIGHT`.
    InvalidWeight,
    /// The balancer already holds `MAX_SERVERS` servers.
    Full,
}

/// Smooth weighted round robin over servers of distinct urls.
#[derive(Debug)]
pub struct WeightedRoundRobinBalancer {
    servers: Vec<Server>,
}

impl View for WeightedRoundRobinBalancer {
    type V = Seq<ServerView>;

    closed spec fn view(&self) -> Seq<ServerView> {
        self.servers@.map_values(|s: Server| s@)
    }
}

/// The urls are distinct.
pub open spec fn urls_unique(s: Seq<ServerView>) -> bool {
    forall|i: int, j: int| 0 <= i < s.len() && 0 <= j < s.len() && i != j ==> s[i].url != s[j].url
}

/// The invariant of a balancer, over its servers.
pub open spec fn registry_ok(s: Seq<ServerView>) -> bool {
    &&& s.len() <= MAX_SERVERS
    &&& urls_unique(s)
    &&& forall|i: int| 0 <= i < s.len() ==> server_ok(#[trigger] s[i])
    &&& total_current(s) == 0
}

impl WeightedRoundRobinBalancer {
    pub open spec fn wf(&self) -> bool {
        registry_ok(self@)
    }

    pub fn new() -> (r: WeightedRoundRobinBalancer)
        ensures
            r.wf(),
            r@ == Seq::<ServerView>::empty(),
    {
        let r = WeightedRoundRobinBalancer { servers: Vec::new() };
        assert(r@ =~= Seq::<ServerView>::empty());
        r
    }

    pub fn get_servers(&self) -> (r: &Vec<Server>)
        ensures
            r@.map_values(|srv: Server| srv@) == self@,
    {
        &self.servers
    }

    /// The server of this url, if there is one.
    pub fn search_server_by_url(&self, url: &String) -> (r: Option<&Server>)
        requires
            self.wf(),
        ensures
            r is None <==> !has_url(self@, url@),
            r matches Some(srv) ==> srv@.url == url@ && self@.contains(srv@),
    {
        let n = self.servers.len();
        let mut i: usize = 0;
        while i < n
            invariant
                n == self.servers.len(),
                n == self@.len(),
                0 <= i <= n,
                forall|j: int| 0 <= j < i ==> (#[trigger] self@[j]).url != url@,
            decreases n - i,
        {
            proof {
                assert(self@[i as int] == self.servers@[i as int]@);
            }
            if self.servers[i].url == *url {
                return Some(&self.servers[i]);
            }
            i = i + 1;
        }
        None
    }

    /// Adds a server of `server`'s url and static weight, with effective
    /// weight one (zero for a static weight of zero) and current weight zero.
    /// A url that is already present leaves the balancer as it is.
    pub fn insert_server(&mut self, server: Server) -> (r: Result<(), InsertError>)
        requires
            old(self).wf(),
        ensures
            final(self).wf(),
            r == insertion(old(self)@, server@.url, server@.weight).0,
            final(self)@ == insertion(old(self)@, server@.url, server@.weight).1,
    {
        if server.weight < 0 || server.weight > MAX_WEIGHT {
            return Err(InsertError::InvalidWeight);
        }
        if self.search_server_by_url(&server.url).is_some() {
            return Ok(());
        }
        if self.servers.len() >= MAX_SERVERS {
            return Err(InsertError::Full);
        }
        let ghost s0 = self@;
        let Server { url, weight, .. } = server;
        self.servers.push(Server::new(url, weight));
        proof {
            let s1 = self@;
            let c = fresh(server@.url, server@.weight);
            assert(s1 =~= s0.push(c));
            assert(s1.drop_last() =~= s0);
            assert(urls_unique(s1)) by {
                assert forall|a: int, b: int|
                    0 <= a < s1.len() && 0 <= b < s1.len() && a != b implies s1[a].url
                    != s1[b].url by {
                    if a < s0.len() && b < s0.len() {
                        assert(s1[a] == s0[a]);
                        assert(s1[b] == s0[b]);
                    } else if a < s0.len() {
                        assert(s1[a] == s0[a]);
                    } else {
                        assert(s1[b] == s0[b]);
                    }
                }
            }
            assert forall|j: int| 0 <= j < s1.len() implies server_ok(#[trigger] s1[j]) by {
                if j < s0.len() {
                    assert(s1[j] == s0[j]);
                }
            }
        }
        Ok(())
    }

    /// `insert_server` of a new server of this url and static weight.
    pub fn insert_url(&mut self, url: String, weight: i32) -> (r: Result<(), InsertError>)
        requires
            old(self).wf(),
        ensures
            final(self).wf(),
            r == insertion(old(self)@, url@, weight as int).0,
            final(self)@ == insertion(old(self)@, url@, weight as int).1,
    {
        let server = Server::new(url, weight);
        self.insert_server(server)
    }

    /// Reports a failure of the server of this url: its effective weight
    /// drops by `decay` of its static weight, to no less than zero. An
    /// unknown url changes nothing.
    pub fn fail(&mut self, url: &String)
        requires
            old(self).wf(),
        ensures
            final(self).wf(),
            final(self)@ == fail_all(old(self)@, url@),
    {
        let ghost s0 = self@;
        let n = self.servers.len();
        let mut i: usize = 0;
        while i < n
            invariant
                n == self.servers.len(),
                n == s0.len(),
                registry_ok(s0),
                0 <= i <= n,
                forall|j: int| 0 <= j < i ==> (#[trigger] self@[j]) == fail_all(s0, url@)[j],
                forall|j: int| i <= j < n ==> (#[trigger] self@[j]) == s0[j],
            decreases n - i,
        {
            proof {
                assert(server_ok(s0[i as int]));
                assert(self@[i as int] == self.servers@[i as int]@);
            }
            let ghost pre = self.servers@;
            let ghost pv = self@;
            if self.servers[i].url == *url {
                let w = self.servers[i].weight;
                let d: i32 = if w / 3 >= 1 {
                    w / 3
                } else {
                    1
                };
                let srv = &mut self.servers[i];
                srv.effect_weight = if srv.effect_weight - d >= 0 {
                    srv.effect_weight - d
                } else {
                    0
                };
            }
            proof {
                assert forall|j: int| 0 <= j < n && j != i implies #[trigger] self@[j] == pv[j] by {
                    assert(pv[j] == pre[j]@);
                    assert(self@[j] == self.servers@[j]@);
                }
                assert(self@[i as int] == fail_all(s0, url@)[i as int]);
            }
            i = i + 1;
        }
        proof {
            let s1 = self@;
            assert(s1 =~= fail_all(s0, url@));
            lemma_current_same(s0, s1);
            assert forall|j: int| 0 <= j < n implies server_ok(#[trigger] s1[j]) by {
                assert(server_ok(s0[j]));
            }
            assert(urls_unique(s1)) by {
                assert forall|a: int, c: int|
                    0 <= a < n && 0 <= c < n && a != c implies s1[a].url != s1[c].url by {
                    assert(s1[a].url == s0[a].url);
                    assert(s1[c].url == s0[c].url);
                }
            }
        }
    }

    /// One tick: raises every current weight by its effective weight,
    /// recovers every effective weight by one towards the static weight,
    /// picks the first server of greatest current weight and drains the
    /// tick's total from it. Returns a snapshot of the picked server.
    pub fn next(&mut self) -> (r: Result<Server, EmptySetError>)
        requires
            old(self).wf(),
        ensures
            final(self).wf(),
            r is Err <==> old(self)@.len() == 0,
            r is Err ==> final(self)@ == old(self)@,
            r matches Ok(snap) ==> {
                &&& is_first_max(old(self)@, pick_index(old(self)@))
                &&& final(self)@ == tick(old(self)@, pick_index(old(self)@))
                &&& snap@ == final(self)@[pick_index(old(self)@)]
            },
            final(self)@.len() == old(self)@.len(),
            forall|j: int|
                0 <= j < old(self)@.len() ==> (#[trigger] final(self)@[j]).effect == if old(
                    self,
                )@[j].effect < old(self)@[j].weight {
                    old(self)@[j].effect + 1
                } else {
                    old(self)@[j].effect
                },
    {
        let ghost s0 = self@;
        let n = self.servers.len();
        if n == 0 {
            return Err(EmptySetError);
        }
        let mut total: i64 = 0;
        let mut best: usize = 0;
        let mut best_cw: i64 = 0;
        let mut i: usize = 0;
        while i < n
            invariant
                n == self.servers.len(),
                n == s0.len(),
                0 < n <= MAX_SERVERS,
                registry_ok(s0),
                0 <= i <= n,
                best < n,
                forall|j: int| 0 <= j < i ==> (#[trigger] self@[j]) == raised(s0[j]),
                forall|j: int| i <= j < n ==> (#[trigger] self@[j]) == s0[j],
                total == total_effect(s0.take(i as int)),
                0 <= total <= i * MAX_WEIGHT,
                best_cw >= 0,
                best_cw == 0 ==> best == 0,
                best_cw == 0 ==> forall|j: int| 0 <= j < i ==> score(#[trigger] s0[j]) <= 0,
                best_cw > 0 ==> {
                    &&& best < i
                    &&& best_cw == score(s0[best as int])
                    &&& forall|j: int| 0 <= j < best ==> score(#[trigger] s0[j]) < best_cw
                    &&& forall|j: int| 0 <= j < i ==> score(#[trigger] s0[j]) <= best_cw
                },
            decreases n - i,
        {
            proof {
                assert(server_ok(s0[i as int]));
                assert(self@[i as int] == self.servers@[i as int]@);
            }
            let ghost pre = self.servers@;
            let ghost pv = self@;
            let srv = &mut self.servers[i];
            srv.cur_weight = srv.cur_weight + srv.effect_weight as i64;
            total = total + srv.effect_weight as i64;
            if srv.effect_weight < srv.weight {
                srv.effect_weight = srv.effect_weight + 1;
            }
            if srv.cur_weight > best_cw {
                best = i;
                best_cw = srv.cur_weight;
            }
            proof {
                assert(s0.take(i + 1).drop_last() =~= s0.take(i as int));
                assert(s0.take(i + 1).last() == s0[i as int]);
                assert(self.servers@ == pre.update(i as int, self.servers@[i as int]));
                assert forall|j: int| 0 <= j < n && j != i implies #[trigger] self@[j] == pv[j] by {
                    assert(pv[j] == pre[j]@);
                    assert(self@[j] == self.servers@[j]@);
                }
                assert(self@[i as int] == raised(s0[i as int]));
                assert(total <= (i + 1) * MAX_WEIGHT) by (nonlinear_arith)
                    requires
                        total <= i * MAX_WEIGHT + MAX_WEIGHT,
                ;
            }
            i = i + 1;
        }
        proof {
            assert(s0.take(n as int) =~= s0);
            lemma_total_effect_bounds(s0);
            if best_cw == 0 {
                lemma_scores_below_each(s0, 0);
                assert forall|j: int| 0 <= j < n implies score(#[trigger] s0[j]) <= score(
                    s0[0],
                ) by {
                    lemma_scores_below_each(s0, j);
                }
            }
            assert(is_first_max(s0, best as int));
            lemma_first_max_unique(s0, best as int);
        }
        let ghost pre = self.servers@;
        let ghost pv = self@;
        proof {
            assert(pv[best as int] == pre[best as int]@);
            assert(server_ok(s0[best as int]));
            assert(n * MAX_WEIGHT <= MAX_SERVERS * MAX_WEIGHT) by (nonlinear_arith)
                requires
                    n <= MAX_SERVERS,
            ;
        }
        let srv = &mut self.servers[best];
        srv.cur_weight = srv.cur_weight - total;
        let snap = self.servers[best].snapshot();
        proof {
            let s1 = self@;
            let b = best as int;
            assert forall|j: int| 0 <= j < n implies #[trigger] s1[j] == if j == b {
                ServerView { current: pv[j].current - total, ..pv[j] }
            } else {
                pv[j]
            } by {
                assert(pv[j] == pre[j]@);
                assert(s1[j] == self.servers@[j]@);
            }
            assert(s1 =~= tick(s0, b));
            let low = -(MAX_SERVERS * MAX_WEIGHT);
            lemma_current_after(s0, s1, b, total as int);
            assert forall|j: int| 0 <= j < n implies low <= (#[trigger] s1[j]).current by {
                assert(server_ok(s0[j]));
                assert(n * MAX_WEIGHT <= MAX_SERVERS * MAX_WEIGHT) by (nonlinear_arith)
                    requires
                        n <= MAX_SERVERS,
                ;
            }
            assert forall|j: int| 0 <= j < n implies server_ok(#[trigger] s1[j]) by {
                assert(server_ok(s0[j]));
                lemma_current_each_below(s1, j, low);
                assert((n - 1) * low >= -(MAX_SERVERS * MAX_SERVERS * MAX_WEIGHT))
                    by (nonlinear_arith)
                    requires
                        n <= MAX_SERVERS,
                        low == -(MAX_SERVERS * MAX_WEIGHT),
                ;
            }
            assert(urls_unique(s1)) by {
                assert forall|a: int, c: int|
                    0 <= a < n && 0 <= c < n && a != c implies s1[a].url != s1[c].url by {
                    assert(s1[a].url == s0[a].url);
                    assert(s1[c].url == s0[c].url);
                }
            }
        }
        Ok(snap)
    }
}

/// A strategy that hands out servers and takes failure reports.
pub trait Balancer: Sized {
    /// What the strategy keeps true between calls.
    spec fn inv(&self) -> bool;

    /// What `next` returns, and the strategy after it, from this strategy.
    spec fn next_post(&self, after: Self, r: Result<Server, EmptySetError>) -> bool;

    /// The strategy after a failure is reported for `url`, from this one.
    spec fn fail_post(&self, after: Self, url: Seq<char>) -> bool;

    /// Hands out the next server.
    fn next(&mut self) -> (r: Result<Server, EmptySetError>)
        requires
            old(self).inv(),
        ensures
            final(self).inv(),
            old(self).next_post(*final(self), r),
    ;

    /// Takes note that a request to the server of this url failed.
    fn fail(&mut self, url: &String)
        requires
            old(self).inv(),
        ensures
            final(self).inv(),
            old(self).fail_post(*final(self), url@),
    ;
}

impl Balancer for WeightedRoundRobinBalancer {
    open spec fn inv(&self) -> bool {
        self.wf()
    }

    /// An empty balancer refuses and stays as it is; otherwise one tick
    /// picks the first server of greatest score and hands out its snapshot.
    open spec fn next_post(&self, after: Self, r: Result<Server, EmptySetError>) -> bool {
        &&& r is Err <==> self@.len() == 0
        &&& r is Err ==> after@ == self@
        &&& r matches Ok(snap) ==> {
            &&& after@ == tick(self@, pick_index(self@))
            &&& snap@ == after@[pick_index(self@)]
        }
    }

    open spec fn fail_post(&self, after: Self, url: Seq<char>) -> bool {
        after@ == fail_all(self@, url)
    }

    fn next(&mut self) -> (r: Result<Server, EmptySetError>) {
        WeightedRoundRobinBalancer::next(self)
    }

    fn fail(&mut self, url: &String) {
        WeightedRoundRobinBalancer::fail(self, url)
    }
}

} // verus!
