//! The learning agent: epsilon-greedy action selection over a value table,
//! temporal-difference updates with an on-policy or off-policy target, and
//! the training and evaluation loops.
use vstd::prelude::*;

use rand::rngs::SmallRng;

use vstd::arithmetic::div_mod::{lemma_fundamental_div_mod, lemma_hoist_over_denominator};
use vstd::arithmetic::power::{lemma_pow_positive, pow};

use crate::env::{Env, EnvError, Transition};
use crate::fixed::{saturate, saturated, scale, scaled, ONE};
use crate::policy::{updated_value, zeros, Policy, TableError};
use crate::random::{draw_range, seeded};

verus! {

/// The index that a left-to-right scan for the maximum settles on: the first
/// value is the running maximum, and a later one replaces it only when it is
/// strictly greater.
pub open spec fn first_max(s: Seq<i64>) -> int
    decreases s.len(),
{
    if s.len() <= 1 {
        0
    } else {
        let i = first_max(s.drop_last());
        if s.last() > s[i] {
            s.len() - 1
        } else {
            i
        }
    }
}

/// `i` indexes a maximum of `s`, and no earlier index holds that maximum.
pub open spec fn is_first_max(s: Seq<i64>, i: int) -> bool {
    &&& 0 <= i < s.len()
    &&& forall|j: int| 0 <= j < s.len() ==> s[j] <= s[i]
    &&& forall|j: int| 0 <= j < i ==> s[j] < s[i]
}

/// The scan of `first_max` ends on the first index of a maximum.
pub proof fn lemma_first_max(s: Seq<i64>)
    requires
        s.len() > 0,
    ensures
        is_first_max(s, first_max(s)),
    decreases s.len(),
{
    if s.len() > 1 {
        let t = s.drop_last();
        lemma_first_max(t);
        assert forall|j: int| 0 <= j < t.len() implies t[j] == s[j] by {}
    }
}

/// The index of the greatest value; among equal greatest values, the first.
pub fn argmax(values: &[i64]) -> (r: usize)
    requires
        values@.len() > 0,
    ensures
        r == first_max(values@),
        is_first_max(values@, r as int),
{
    let mut best: usize = 0;
    let mut i: usize = 1;
    assert(values@.take(1).len() == 1);
    while i < values.len()
        invariant
            1 <= i <= values@.len(),
            best == first_max(values@.take(i as int)),
            best < i,
        decreases values@.len() - i,
    {
        let ghost prefix = values@.take(i as int + 1);
        assert(prefix.drop_last() =~= values@.take(i as int));
        assert(prefix.last() == values@[i as int]);
        if values[i] > values[best] {
            best = i;
        }
        i = i + 1;
    }
    assert(values@.take(i as int) =~= values@);
    proof {
        lemma_first_max(values@);
    }
    best
}

/// How the target of a temporal-difference update is chosen.
#[derive(Debug, Clone, Copy, PartialEq, Eq, Structural)]
pub enum Control {
    /// SARSA: the value of the action that will actually be taken next.
    OnPolicy,
    /// Q-learning: the greatest value at the next state.
    OffPolicy,
}

/// The value that the update aims at, before discounting.
pub open spec fn target_value(rule: Control, next_row: Seq<i64>, next_action: int) -> int {
    match rule {
        Control::OnPolicy => next_row[next_action] as int,
        Control::OffPolicy => next_row[first_max(next_row)] as int,
    }
}

/// The temporal-difference error: reward, plus the discounted target unless
/// the transition was terminal, minus the current estimate.
pub open spec fn td_error(
    reward: int,
    terminated: bool,
    discount: int,
    target: int,
    current: int,
) -> i64 {
    saturated(reward + (if terminated { 0 } else { scaled(discount, target) }) - current)
}

/// One decay of the exploration rate: multiplied by 0.9, rounded down.
pub open spec fn decayed(epsilon: int) -> int {
    epsilon * 9 / 10
}

/// The exploration rate after `k` decays.
pub open spec fn decayed_n(epsilon: int, k: nat) -> int
    decreases k,
{
    if k == 0 {
        epsilon
    } else {
        decayed(decayed_n(epsilon, (k - 1) as nat))
    }
}

/// After `k` decays from `epsilon >= 0`, the exploration rate is never
/// negative, never above where it started, no greater than after `k - 1`
/// decays, and at most `epsilon * 0.9^k`.
pub proof fn lemma_epsilon_decay(epsilon: int, k: nat)
    requires
        epsilon >= 0,
    ensures
        0 <= decayed_n(epsilon, k) <= epsilon,
        k > 0 ==> decayed_n(epsilon, k) <= decayed_n(epsilon, (k - 1) as nat),
        decayed_n(epsilon, k) * pow(10, k) <= epsilon * pow(9, k),
    decreases k,
{
    reveal(pow);
    if k > 0 {
        let k1 = (k - 1) as nat;
        lemma_epsilon_decay(epsilon, k1);
        let prev = decayed_n(epsilon, k1);
        let cur = decayed_n(epsilon, k);
        assert(cur == prev * 9 / 10);
        assert(0 <= cur <= prev && cur * 10 <= prev * 9) by (nonlinear_arith)
            requires cur == prev * 9 / 10, prev >= 0;
        lemma_pow_positive(10, k1);
        lemma_pow_positive(9, k1);
        assert(pow(10, k) == 10 * pow(10, k1));
        assert(pow(9, k) == 9 * pow(9, k1));
        assert(cur * pow(10, k) <= epsilon * pow(9, k)) by (nonlinear_arith)
            requires
                cur * 10 <= prev * 9,
                prev * pow(10, k1) <= epsilon * pow(9, k1),
                pow(10, k) == 10 * pow(10, k1),
                pow(9, k) == 9 * pow(9, k1),
                pow(10, k1) > 0,
                cur >= 0;
    }
}

/// A terminal transition counts no continuation: its error is the reward
/// minus the current estimate, whatever the next state holds.
pub proof fn lemma_terminal_zeroing(
    reward: int,
    discount: int,
    target: int,
    other_target: int,
    current: int,
)
    ensures
        td_error(reward, true, discount, target, current) == saturated(reward - current),
        td_error(reward, true, discount, target, current) == td_error(
            reward,
            true,
            discount,
            other_target,
            current,
        ),
{
}

/// Whether a uniform draw from `[0, ONE)` calls for exploring: it does when
/// it is at most epsilon, and never when epsilon is zero.
pub open spec fn explores(epsilon: int, draw: int) -> bool {
    epsilon != 0 && draw <= epsilon
}

/// Decides between exploring and exploiting for one uniform draw from
/// `[0, ONE)`.
pub fn should_explore_with(epsilon: u64, draw: u64) -> (r: bool)
    ensures
        r == explores(epsilon as int, draw as int),
{
    epsilon != 0 && draw <= epsilon
}

/// A failure that ends a training or evaluation run.
#[derive(Debug, Clone, Copy, PartialEq, Eq, Structural)]
pub enum AgentError {
    /// The environment refused a step.
    Env(EnvError),
    /// The environment produced a state outside the value table.
    Table(TableError),
}

/// The sum of a sequence of rewards.
pub open spec fn sum_rewards(s: Seq<i64>) -> int
    decreases s.len(),
{
    if s.len() == 0 {
        0
    } else {
        sum_rewards(s.drop_last()) + s.last()
    }
}

/// The sum of a sequence of episode lengths.
pub open spec fn sum_lengths(s: Seq<usize>) -> int
    decreases s.len(),
{
    if s.len() == 0 {
        0
    } else {
        sum_lengths(s.drop_last()) + s.last()
    }
}

/// `x / d`, rounded toward zero, for a positive `d`.
pub open spec fn quotient(x: int, d: int) -> int {
    if x >= 0 {
        x / d
    } else {
        -((-x) / d)
    }
}

/// The mean of the rewards, rounded toward zero; zero when there are none.
pub open spec fn mean_reward(s: Seq<i64>) -> i64 {
    if s.len() == 0 {
        0
    } else {
        saturated(quotient(sum_rewards(s), s.len() as int))
    }
}

/// The mean of the lengths in fixed point, rounded down; zero when there are
/// none.
pub open spec fn mean_length(s: Seq<usize>) -> i64 {
    if s.len() == 0 {
        0
    } else {
        saturated(sum_lengths(s) * ONE / (s.len() as int))
    }
}

/// How many of the episodes `0..n` are followed by an evaluation when one
/// is run every `every` episodes, starting with the first, counted one
/// episode at a time.
spec fn evaluations(n: nat, every: nat) -> nat
    decreases n,
{
    if n == 0 {
        0
    } else {
        evaluations((n - 1) as nat, every) + if (n - 1) % (every as int) == 0 {
            1nat
        } else {
            0nat
        }
    }
}

proof fn lemma_div_small(x: int, k: int, q: int)
    requires
        k > 0,
        q * k <= x < (q + 1) * k,
    ensures
        x / k == q,
{
    lemma_fundamental_div_mod(x, k);
    let d = x / k;
    let r = x % k;
    assert(d == q) by (nonlinear_arith)
        requires x == k * d + r, 0 <= r < k, q * k <= x < (q + 1) * k, k > 0;
}

proof fn lemma_evaluations_monotone(i: nat, j: nat, every: nat)
    requires
        i <= j,
    ensures
        evaluations(i, every) <= evaluations(j, every),
    decreases j,
{
    if i < j {
        lemma_evaluations_monotone(i, (j - 1) as nat, every);
    }
}

/// The count of evaluations is the number of multiples of `every` below
/// `n`: `n / every` rounded up.
proof fn lemma_evaluations(n: nat, every: nat)
    requires
        every > 0,
    ensures
        evaluations(n, every) == (n + every - 1) / (every as int),
    decreases n,
{
    let k = every as int;
    if n == 0 {
        lemma_div_small(k - 1, k, 0);
    } else {
        let m = (n - 1) as int;
        lemma_evaluations((n - 1) as nat, every);
        lemma_fundamental_div_mod(m, k);
        let q = m / k;
        let r = m % k;
        assert(q * k == k * q) by (nonlinear_arith);
        assert(q >= 0) by (nonlinear_arith)
            requires m == k * q + r, 0 <= r < k, m >= 0, k > 0;
        if r == 0 {
            assert((q + 1) * k == q * k + k) by (nonlinear_arith);
            lemma_div_small(m + k - 1, k, q);
            assert((q + 2) * k == q * k + 2 * k) by (nonlinear_arith);
            lemma_div_small(m + k, k, q + 1);
        } else {
            assert((q + 1) * k == q * k + k) by (nonlinear_arith);
            assert((q + 2) * k == q * k + 2 * k) by (nonlinear_arith);
            lemma_div_small(m + k - 1, k, q + 1);
            lemma_div_small(m + k, k, q + 1);
        }
    }
}

/// The mean of `rewards`, rounded toward zero; zero for no rewards.
pub fn mean_of_rewards(rewards: &Vec<i64>) -> (r: i64)
    ensures
        r == mean_reward(rewards@),
{
    let n: usize = rewards.len();
    if n == 0 {
        return 0;
    }
    let mut acc: i128 = 0;
    let mut i: usize = 0;
    while i < n
        invariant
            n == rewards@.len(),
            i <= n,
            acc == sum_rewards(rewards@.take(i as int)),
            -(i as int) * 0x8000_0000_0000_0000 <= acc <= (i as int) * 0x7fff_ffff_ffff_ffff,
        decreases n - i,
    {
        assert(rewards@.take(i as int + 1).drop_last() =~= rewards@.take(i as int));
        assert((i as int + 1) * 0x8000_0000_0000_0000 <= 0x8000_0000_0000_0000_0000_0000_0000_0000)
            by (nonlinear_arith)
            requires i < n, n <= usize::MAX;
        acc = acc + rewards[i] as i128;
        i = i + 1;
    }
    assert(rewards@.take(n as int) =~= rewards@);
    let count: i128 = n as i128;
    let q: i128 = if acc >= 0 {
        acc / count
    } else {
        -((-acc) / count)
    };
    saturate(q)
}

/// The mean of `lengths` in fixed point, rounded down; zero for no lengths.
pub fn mean_of_lengths(lengths: &Vec<usize>) -> (r: i64)
    ensures
        r == mean_length(lengths@),
{
    let n: usize = lengths.len();
    if n == 0 {
        return 0;
    }
    let mut acc: u128 = 0;
    let mut i: usize = 0;
    while i < n
        invariant
            n == lengths@.len(),
            i <= n,
            acc == sum_lengths(lengths@.take(i as int)),
            acc <= (i as int) * (usize::MAX as int),
        decreases n - i,
    {
        assert(lengths@.take(i as int + 1).drop_last() =~= lengths@.take(i as int));
        assert((i as int + 1) * (usize::MAX as int) <= u128::MAX) by (nonlinear_arith)
            requires i < n, n <= usize::MAX;
        acc = acc + lengths[i] as u128;
        i = i + 1;
    }
    assert(lengths@.take(n as int) =~= lengths@);
    let count: u128 = n as u128;
    let q: u128 = acc / count;
    let rem: u128 = acc % count;
    proof {
        lemma_fundamental_div_mod(acc as int, count as int);
        assert(q <= usize::MAX) by (nonlinear_arith)
            requires q == acc as int / count as int, acc <= (count as int) * (usize::MAX as int),
                count > 0;
        assert(acc as int * ONE == rem as int * ONE + (q as int * ONE) * count as int)
            by (nonlinear_arith)
            requires acc as int == count as int * q as int + rem as int;
        lemma_hoist_over_denominator(rem as int * ONE, q as int * ONE, count as nat);
        assert(rem as int * ONE < count as int * ONE) by (nonlinear_arith)
            requires rem < count;
        assert(rem as int * ONE / count as int <= ONE) by (nonlinear_arith)
            requires rem as int * ONE < count as int * ONE, count > 0;
    }
    let part: u128 = rem * (ONE as u128) / count;
    let whole: u128 = q * (ONE as u128) + part;
    saturate(whole as i128)
}

/// The total reward of an episode: the rewards of its steps added in
/// order, each partial sum saturating at the bounds of `i64`.
pub open spec fn episode_total(rewards: Seq<i64>) -> i64
    decreases rewards.len(),
{
    if rewards.len() == 0 {
        0
    } else {
        saturated(episode_total(rewards.drop_last()) + rewards.last())
    }
}

/// The rewards of a sequence of transitions, in order.
pub open spec fn rewards_of(ts: Seq<Transition>) -> Seq<i64> {
    Seq::new(ts.len(), |j: int| ts[j].2)
}

/// The transitions make one finished episode: there is at least one, the
/// last ends the episode, and none before it does.
pub open spec fn finished(ts: Seq<Transition>) -> bool {
    &&& ts.len() >= 1
    &&& ts.last().3
    &&& forall|j: int| 0 <= j < ts.len() - 1 ==> !(#[trigger] ts[j]).3
}

/// The state from which transition `j` of episode `ep` was taken.
pub open spec fn state_before(ep: (usize, Seq<Transition>), j: int) -> usize {
    if j == 0 {
        ep.0
    } else {
        ep.1[j - 1].1
    }
}

/// Every action of episode `ep` is the first action of greatest value in
/// `table` at the state it was taken from.
pub open spec fn greedy_episode(table: Seq<Seq<i64>>, ep: (usize, Seq<Transition>)) -> bool {
    forall|j: int|
        0 <= j < ep.1.len() ==> (#[trigger] ep.1[j]).0 == first_max(
            table[state_before(ep, j) as int],
        )
}

/// Episode `ep` finished after `length` steps, and `total` is the sum of the
/// rewards its steps returned.
pub open spec fn played(ep: (usize, Seq<Transition>), total: i64, length: usize) -> bool {
    &&& finished(ep.1)
    &&& length == ep.1.len()
    &&& total == episode_total(rewards_of(ep.1))
}

/// The episodes of `h` from index `start` on are exactly `n` finished
/// episodes, with the totals and lengths given.
pub open spec fn plays(
    h: Seq<(usize, Seq<Transition>)>,
    start: int,
    totals: Seq<i64>,
    lengths: Seq<usize>,
    n: nat,
) -> bool {
    &&& totals.len() == n
    &&& lengths.len() == n
    &&& h.len() == start + n
    &&& forall|i: int| 0 <= i < n ==> #[trigger] played(h[start + i], totals[i], lengths[i])
}

/// Where the history of a training run holds training episode `i`: each
/// training episode whose index is a multiple of `eval_at` is followed by
/// `eval_for` evaluation episodes.
pub open spec fn training_slot(i: int, eval_at: int, eval_for: int) -> int {
    i + eval_for * ((i + eval_at - 1) / eval_at)
}

/// The total rewards of the `n` episodes of `h` from index `start` on.
pub open spec fn totals_of(h: Seq<(usize, Seq<Transition>)>, start: int, n: nat) -> Seq<i64> {
    Seq::new(n, |t: int| episode_total(rewards_of(h[start + t].1)))
}

/// The lengths of the `n` episodes of `h` from index `start` on.
pub open spec fn lengths_of(h: Seq<(usize, Seq<Transition>)>, start: int, n: nat) -> Seq<usize> {
    Seq::new(n, |t: int| h[start + t].1.len() as usize)
}

/// `h` holds `n` episodes from index `start` on, whose mean total reward
/// is `mean_total` and whose mean length (in fixed point) is `mean_len`.
pub open spec fn evaluated(
    h: Seq<(usize, Seq<Transition>)>,
    start: int,
    n: nat,
    mean_total: i64,
    mean_len: i64,
) -> bool {
    &&& 0 <= start
    &&& start + n <= h.len()
    &&& mean_total == mean_reward(totals_of(h, start, n))
    &&& mean_len == mean_length(lengths_of(h, start, n))
}

proof fn lemma_evaluated_stable(
    h1: Seq<(usize, Seq<Transition>)>,
    h2: Seq<(usize, Seq<Transition>)>,
    start: int,
    n: nat,
    mean_total: i64,
    mean_len: i64,
)
    requires
        evaluated(h1, start, n, mean_total, mean_len),
        h2.len() >= h1.len(),
        h2.take(h1.len() as int) == h1,
    ensures
        evaluated(h2, start, n, mean_total, mean_len),
{
    assert forall|t: int| 0 <= t < n implies #[trigger] h2[start + t] == h1[start + t] by {
        assert(h2.take(h1.len() as int)[start + t] == h2[start + t]);
    }
    assert(totals_of(h2, start, n) =~= totals_of(h1, start, n));
    assert(lengths_of(h2, start, n) =~= lengths_of(h1, start, n));
}

/// The rewards of `ts.push(t)` are those of `ts` followed by the reward of `t`.
proof fn lemma_rewards_push(ts: Seq<Transition>, t: Transition)
    ensures
        rewards_of(ts.push(t)) == rewards_of(ts).push(t.2),
        rewards_of(ts.push(t)).drop_last() == rewards_of(ts),
{
    assert(rewards_of(ts.push(t)) =~= rewards_of(ts).push(t.2));
    assert(rewards_of(ts.push(t)).drop_last() =~= rewards_of(ts));
}

/// What a training run records: per episode its total reward, length and
/// the error of every update; per evaluation the mean reward and the mean
/// length (in fixed point) of the evaluation episodes.
pub struct TrainResults {
    pub training_reward: Vec<i64>,
    pub training_length: Vec<usize>,
    pub training_error: Vec<i64>,
    pub mean_evaluation_reward: Vec<i64>,
    pub mean_evaluation_length: Vec<i64>,
}

/// The action for the coin `coin` and the uniformly drawn index `pick`:
/// `pick` when the coin calls for exploring, else the first maximum.
pub open spec fn chosen_action(values: Seq<i64>, epsilon: int, coin: int, pick: int) -> int {
    if explores(epsilon, coin) {
        pick
    } else {
        first_max(values)
    }
}

/// Chooses an action from the values at a state, given the exploration
/// coin and the index drawn for exploring.
pub fn choose_action(values: &[i64], epsilon: u64, coin: u64, pick: u64) -> (r: usize)
    requires
        values@.len() > 0,
        pick < values@.len(),
    ensures
        r == chosen_action(values@, epsilon as int, coin as int, pick as int),
        r < values@.len(),
{
    let n: usize = values.len();
    if should_explore_with(epsilon, coin) {
        assert(pick < n);
        pick as usize
    } else {
        argmax(values)
    }
}

/// An epsilon-greedy learner over a value table.
pub struct QLearning {
    epsilon: u64,
    rng: SmallRng,
    discount_factor: u64,
    control: Control,
    pub policy: Policy,
}

impl QLearning {
    /// The exploration rate, in fixed point.
    pub closed spec fn eps(&self) -> int {
        self.epsilon as int
    }

    /// The discount factor, in fixed point.
    pub closed spec fn gamma(&self) -> int {
        self.discount_factor as int
    }

    /// The random generator.
    pub closed spec fn generator(&self) -> SmallRng {
        self.rng
    }

    /// The value table.
    pub closed spec fn table(&self) -> Policy {
        self.policy
    }

    /// The control rule.
    pub closed spec fn rule(&self) -> Control {
        self.control
    }

    /// The agent is well formed: a well-formed table, and exploration and
    /// discount rates in `[0, ONE]`.
    pub open spec fn wf(&self) -> bool {
        &&& self.table().wf()
        &&& 0 <= self.eps() <= ONE
        &&& 0 <= self.gamma() <= ONE
    }

    /// An off-policy (Q-learning) agent over a fresh table, exploring always
    /// at first.
    pub fn new(
        n_states: usize,
        n_actions: usize,
        learning_rate: u64,
        discount_factor: u64,
        seed: u64,
    ) -> (r: Self)
        requires
            n_actions > 0,
            0 < learning_rate <= ONE,
            discount_factor <= ONE,
            n_states * n_actions <= usize::MAX,
        ensures
            r.wf(),
            r.rule() == Control::OffPolicy,
            r.eps() == ONE,
            r.gamma() == discount_factor,
            r.table()@ == zeros(n_states as nat, n_actions as nat),
            r.table().rate() == learning_rate,
            r.table().states() == n_states,
            r.table().actions() == n_actions,
    {
        Self::with_control(
            Control::OffPolicy,
            n_states,
            n_actions,
            learning_rate,
            discount_factor,
            seed,
        )
    }

    /// An agent with the given control rule over a fresh table, exploring
    /// always at first.
    pub fn with_control(
        control: Control,
        n_states: usize,
        n_actions: usize,
        learning_rate: u64,
        discount_factor: u64,
        seed: u64,
    ) -> (r: Self)
        requires
            n_actions > 0,
            0 < learning_rate <= ONE,
            discount_factor <= ONE,
            n_states * n_actions <= usize::MAX,
        ensures
            r.wf(),
            r.rule() == control,
            r.eps() == ONE,
            r.gamma() == discount_factor,
            r.table()@ == zeros(n_states as nat, n_actions as nat),
            r.table().rate() == learning_rate,
            r.table().states() == n_states,
            r.table().actions() == n_actions,
    {
        QLearning {
            epsilon: ONE as u64,
            rng: seeded(seed),
            discount_factor,
            control,
            policy: Policy::new(n_states, n_actions, learning_rate),
        }
    }

    /// Applies one temporal-difference update for the transition from
    /// (`curr_obs`, `curr_action`) to `next_obs`, where the agent will take
    /// `next_action`, and returns the error. A terminal transition counts no
    /// continuation value, and ends an episode: epsilon decays once.
    pub fn update(
        &mut self,
        curr_obs: usize,
        curr_action: usize,
        reward: i64,
        terminated: bool,
        next_obs: usize,
        next_action: usize,
    ) -> (r: Result<i64, TableError>)
        requires
            old(self).wf(),
        ensures
            final(self).wf(),
            final(self).gamma() == old(self).gamma(),
            final(self).rule() == old(self).rule(),
            final(self).generator() == old(self).generator(),
            final(self).table().rate() == old(self).table().rate(),
            final(self).table().states() == old(self).table().states(),
            final(self).table().actions() == old(self).table().actions(),
            r is Ok <==> (curr_obs < old(self).table().states() && next_obs
                < old(self).table().states() && curr_action < old(self).table().actions()
                && next_action < old(self).table().actions()),
            r matches Err(e) ==> (e == TableError::StateOutOfRange <==> (curr_obs
                >= old(self).table().states() || next_obs >= old(self).table().states())),
            r is Err ==> final(self).table()@ == old(self).table()@ && final(self).eps() == old(
                self,
            ).eps(),
            r matches Ok(td) ==> {
                let q = old(self).table()@;
                let current = q[curr_obs as int][curr_action as int];
                let target = target_value(
                    old(self).rule(),
                    q[next_obs as int],
                    next_action as int,
                );
                &&& td == td_error(
                    reward as int,
                    terminated,
                    old(self).gamma(),
                    target,
                    current as int,
                )
                &&& final(self).table()@ == q.update(
                    curr_obs as int,
                    q[curr_obs as int].update(
                        curr_action as int,
                        updated_value(current, old(self).table().rate(), td as int),
                    ),
                )
                &&& final(self).eps() == if terminated {
                    decayed(old(self).eps())
                } else {
                    old(self).eps()
                }
            },
    {
        if curr_obs >= self.policy.n_states() || next_obs >= self.policy.n_states() {
            return Err(TableError::StateOutOfRange);
        }
        if curr_action >= self.policy.n_actions() || next_action >= self.policy.n_actions() {
            return Err(TableError::ActionOutOfRange);
        }
        let next_values = match self.policy.get_values(next_obs) {
            Ok(v) => v,
            Err(e) => return Err(e),
        };
        let target: i64 = match self.control {
            Control::OnPolicy => next_values[next_action],
            Control::OffPolicy => next_values[argmax(next_values.as_slice())],
        };
        let current: i64 = match self.policy.value(curr_obs, curr_action) {
            Ok(v) => v,
            Err(e) => return Err(e),
        };
        let future: i64 = if terminated {
            0
        } else {
            scale(self.discount_factor, target)
        };
        let td: i64 = saturate(reward as i128 + future as i128 - current as i128);
        match self.policy.update(curr_obs, curr_action, td) {
            Ok(_) => {},
            Err(e) => return Err(e),
        }
        if terminated {
            self.epsilon = self.epsilon * 9 / 10;
        }
        Ok(td)
    }

    /// Draws the exploration coin from the agent's stream and returns the
    /// decision with the coin; with epsilon at zero no draw is taken, and
    /// the coin reads zero.
    fn should_explore(&mut self) -> (r: (bool, u64))
        ensures
            final(self).table() == old(self).table(),
            final(self).eps() == old(self).eps(),
            final(self).gamma() == old(self).gamma(),
            final(self).rule() == old(self).rule(),
            r.0 == explores(old(self).eps(), r.1 as int),
            r.1 < ONE,
            old(self).eps() == 0 ==> *final(self) == *old(self) && r.1 == 0,
    {
        if self.epsilon == 0 {
            return (false, 0);
        }
        let coin: u64 = draw_range(&mut self.rng, 0, ONE as u64);
        (should_explore_with(self.epsilon, coin), coin)
    }

    /// The action to take at `obs`: a coin is drawn (unless epsilon is zero),
    /// and when it calls for exploring a uniformly drawn action, otherwise
    /// the first action of greatest value.
    pub fn get_action(&mut self, obs: usize) -> (r: Result<usize, TableError>)
        requires
            old(self).wf(),
        ensures
            final(self).table() == old(self).table(),
            final(self).eps() == old(self).eps(),
            final(self).gamma() == old(self).gamma(),
            final(self).rule() == old(self).rule(),
            old(self).eps() == 0 ==> *final(self) == *old(self),
            obs < old(self).table().states() <==> r is Ok,
            r matches Err(e) ==> e == TableError::StateOutOfRange && *final(self) == *old(self),
            r matches Ok(a) ==> {
                &&& a < old(self).table().actions()
                &&& (old(self).eps() == 0 ==> a == first_max(old(self).table()@[obs as int]))
                &&& exists|coin: int, pick: int|
                    0 <= coin < ONE && 0 <= pick < old(self).table().actions() && a
                        == #[trigger] chosen_action(
                        old(self).table()@[obs as int],
                        old(self).eps(),
                        coin,
                        pick,
                    )
            },
    {
        let values = match self.policy.get_values(obs) {
            Ok(v) => v,
            Err(e) => return Err(e),
        };
        let (explore, coin) = self.should_explore();
        let pick: u64 = if explore {
            draw_range(&mut self.rng, 0, values.len() as u64)
        } else {
            0
        };
        let a = choose_action(values.as_slice(), self.epsilon, coin, pick);
        assert(self.table() == old(self).table());
        assert(values@ == old(self).table()@[obs as int]);
        assert(a == chosen_action(old(self).table()@[obs as int], old(self).eps(), coin as int, pick as int));
        assert(0 <= coin < ONE && 0 <= pick < old(self).table().actions());
        Ok(a)
    }

    /// The action of greatest value at `obs`, the first on ties; no draw
    /// is taken.
    pub fn greedy_action(&self, obs: usize) -> (r: Result<usize, TableError>)
        requires
            self.wf(),
        ensures
            obs < self.table().states() <==> r is Ok,
            r matches Err(e) ==> e == TableError::StateOutOfRange,
            r matches Ok(a) ==> a == first_max(self.table()@[obs as int]) && a
                < self.table().actions(),
    {
        let values = match self.policy.get_values(obs) {
            Ok(v) => v,
            Err(e) => return Err(e),
        };
        Ok(argmax(values.as_slice()))
    }

    /// Clears the table and restores epsilon to one; the random stream
    /// goes on where it was.
    pub fn reset(&mut self)
        requires
            old(self).wf(),
        ensures
            final(self).wf(),
            final(self).eps() == ONE,
            final(self).gamma() == old(self).gamma(),
            final(self).rule() == old(self).rule(),
            final(self).generator() == old(self).generator(),
            final(self).table()@ == zeros(old(self).table().states(), old(self).table().actions()),
            final(self).table().rate() == old(self).table().rate(),
            final(self).table().states() == old(self).table().states(),
            final(self).table().actions() == old(self).table().actions(),
    {
        self.policy.reset();
        self.epsilon = ONE as u64;
    }

    /// One training episode: the agent acts, the table is updated after
    /// every step, and each error is appended to `errors`. Returns the total
    /// reward and the number of steps.
    fn train_episode<E: Env>(&mut self, env: &mut E, errors: &mut Vec<i64>) -> (r: Result<
        (i64, usize),
        AgentError,
    >)
        requires
            old(self).wf(),
            old(env).inv(),
        ensures
            final(self).wf(),
            final(env).inv(),
            final(self).gamma() == old(self).gamma(),
            final(self).rule() == old(self).rule(),
            final(self).table().rate() == old(self).table().rate(),
            final(self).table().states() == old(self).table().states(),
            final(self).table().actions() == old(self).table().actions(),
            final(env).episodes().len() > old(env).episodes().len(),
            final(env).episodes().take(old(env).episodes().len() as int) == old(env).episodes(),
            r matches Ok((total, len)) ==> {
                &&& final(env).episodes().len() == old(env).episodes().len() + 1
                &&& played(final(env).episodes().last(), total, len)
                &&& final(errors)@.len() == old(errors)@.len() + len
                &&& final(self).eps() == decayed(old(self).eps())
            },
            r matches Err(AgentError::Env(e)) ==> final(env).failure() == Some(e),
            r matches Err(AgentError::Table(e)) ==> e == TableError::StateOutOfRange,
    {
        let ghost n0 = env.episodes().len() as int;
        let mut curr_obs: usize = env.reset();
        assert(env.episodes().take(n0) =~= old(env).episodes());
        let mut curr_action: usize = match self.get_action(curr_obs) {
            Ok(a) => a,
            Err(e) => return Err(AgentError::Table(e)),
        };
        let ghost fuel0 = env.fuel();
        let mut count: usize = 0;
        let mut total: i64 = 0;
        loop
            invariant
                self.wf(),
                env.inv(),
                self.gamma() == old(self).gamma(),
                self.rule() == old(self).rule(),
                self.table().rate() == old(self).table().rate(),
                self.table().states() == old(self).table().states(),
                self.table().actions() == old(self).table().actions(),
                self.eps() == old(self).eps(),
                curr_obs < self.table().states(),
                curr_action < self.table().actions(),
                fuel0 < usize::MAX,
                count + env.fuel() <= fuel0,
                n0 == old(env).episodes().len(),
                env.episodes().len() == n0 + 1,
                env.episodes().take(n0) == old(env).episodes(),
                env.episodes()[n0].1.len() == count,
                total == episode_total(rewards_of(env.episodes()[n0].1)),
                forall|j: int| 0 <= j < count ==> !(#[trigger] env.episodes()[n0].1[j]).3,
                errors@.len() == old(errors)@.len() + count,
            decreases env.fuel(),
        {
            let ghost prev = env.episodes();
            let (next_obs, reward, done) = match env.step(curr_action) {
                Ok(t) => t,
                Err(e) => return Err(AgentError::Env(e)),
            };
            proof {
                let t = (curr_action, next_obs, reward, done);
                lemma_rewards_push(prev[n0].1, t);
                assert(env.episodes()[n0] == (prev[n0].0, prev[n0].1.push(t)));
                assert(env.episodes().take(n0) =~= prev.take(n0));
            }
            count = count + 1;
            let next_action: usize = match self.get_action(next_obs) {
                Ok(a) => a,
                Err(e) => return Err(AgentError::Table(e)),
            };
            let td: i64 = match self.update(
                curr_obs,
                curr_action,
                reward,
                done,
                next_obs,
                next_action,
            ) {
                Ok(v) => v,
                Err(e) => return Err(AgentError::Table(e)),
            };
            errors.push(td);
            total = saturate(total as i128 + reward as i128);
            if done {
                return Ok((total, count));
            }
            curr_obs = next_obs;
            curr_action = next_action;
        }
    }

    /// One episode without learning: the table and epsilon stay as they are.
    /// With `greedy` the first action of greatest value is always taken and
    /// no draw is made; otherwise the agent acts as in training. Returns the
    /// total reward and the number of steps.
    fn play_episode<E: Env>(&mut self, env: &mut E, greedy: bool) -> (r: Result<
        (i64, usize),
        AgentError,
    >)
        requires
            old(self).wf(),
            old(env).inv(),
        ensures
            final(self).wf(),
            final(env).inv(),
            final(self).table() == old(self).table(),
            final(self).eps() == old(self).eps(),
            final(self).gamma() == old(self).gamma(),
            final(self).rule() == old(self).rule(),
            greedy || old(self).eps() == 0 ==> *final(self) == *old(self),
            final(env).episodes().len() > old(env).episodes().len(),
            final(env).episodes().take(old(env).episodes().len() as int) == old(env).episodes(),
            r matches Ok((total, len)) ==> {
                &&& final(env).episodes().len() == old(env).episodes().len() + 1
                &&& played(final(env).episodes().last(), total, len)
                &&& (greedy || old(self).eps() == 0) ==> greedy_episode(
                    old(self).table()@,
                    final(env).episodes().last(),
                )
            },
            r matches Err(AgentError::Env(e)) ==> final(env).failure() == Some(e),
            r matches Err(AgentError::Table(e)) ==> e == TableError::StateOutOfRange,
    {
        let ghost n0 = env.episodes().len() as int;
        let mut obs: usize = env.reset();
        assert(env.episodes().take(n0) =~= old(env).episodes());
        let ghost fuel0 = env.fuel();
        let mut count: usize = 0;
        let mut total: i64 = 0;
        loop
            invariant
                self.wf(),
                env.inv(),
                self.table() == old(self).table(),
                self.eps() == old(self).eps(),
                self.gamma() == old(self).gamma(),
                self.rule() == old(self).rule(),
                greedy || old(self).eps() == 0 ==> *self == *old(self),
                fuel0 < usize::MAX,
                count + env.fuel() <= fuel0,
                n0 == old(env).episodes().len(),
                env.episodes().len() == n0 + 1,
                env.episodes().take(n0) == old(env).episodes(),
                env.episodes()[n0].1.len() == count,
                state_before(env.episodes()[n0], count as int) == obs,
                total == episode_total(rewards_of(env.episodes()[n0].1)),
                forall|j: int| 0 <= j < count ==> !(#[trigger] env.episodes()[n0].1[j]).3,
                greedy || old(self).eps() == 0 ==> greedy_episode(
                    old(self).table()@,
                    env.episodes()[n0],
                ),
            decreases env.fuel(),
        {
            let chosen = if greedy {
                self.greedy_action(obs)
            } else {
                self.get_action(obs)
            };
            let action: usize = match chosen {
                Ok(a) => a,
                Err(e) => return Err(AgentError::Table(e)),
            };
            let ghost prev = env.episodes();
            let (next_obs, reward, done) = match env.step(action) {
                Ok(t) => t,
                Err(e) => return Err(AgentError::Env(e)),
            };
            proof {
                let t = (action, next_obs, reward, done);
                let ep0 = prev[n0];
                let ep1 = (ep0.0, ep0.1.push(t));
                lemma_rewards_push(ep0.1, t);
                assert(env.episodes()[n0] == ep1);
                assert(env.episodes().take(n0) =~= prev.take(n0));
                assert forall|j: int| 0 <= j < count + 1 implies !(#[trigger] ep1.1[j]).3 || j
                    == count by {
                    if j < count {
                        assert(ep1.1[j] == ep0.1[j]);
                    }
                }
                if greedy || old(self).eps() == 0 {
                    assert forall|j: int| 0 <= j < ep1.1.len() implies (#[trigger] ep1.1[j]).0
                        == first_max(old(self).table()@[state_before(ep1, j) as int]) by {
                        if j < count {
                            assert(ep1.1[j] == ep0.1[j]);
                            assert(state_before(ep1, j) == state_before(ep0, j));
                        }
                    }
                }
            }
            count = count + 1;
            total = saturate(total as i128 + reward as i128);
            if done {
                return Ok((total, count));
            }
            obs = next_obs;
        }
    }

    fn run_evaluation<E: Env>(&mut self, env: &mut E, episodes: usize, greedy: bool) -> (r: Result<
        (Vec<i64>, Vec<usize>),
        AgentError,
    >)
        requires
            old(self).wf(),
            old(env).inv(),
        ensures
            final(self).wf(),
            final(env).inv(),
            final(self).table() == old(self).table(),
            final(self).eps() == old(self).eps(),
            final(self).gamma() == old(self).gamma(),
            final(self).rule() == old(self).rule(),
            greedy || old(self).eps() == 0 ==> *final(self) == *old(self),
            episodes == 0 ==> r is Ok && *final(self) == *old(self) && *final(env) == *old(env),
            final(env).episodes().len() >= old(env).episodes().len(),
            final(env).episodes().take(old(env).episodes().len() as int) == old(env).episodes(),
            r matches Ok((rewards, lengths)) ==> {
                &&& plays(
                    final(env).episodes(),
                    old(env).episodes().len() as int,
                    rewards@,
                    lengths@,
                    episodes as nat,
                )
                &&& (greedy || old(self).eps() == 0) ==> forall|i: int|
                    0 <= i < episodes ==> greedy_episode(
                        old(self).table()@,
                        #[trigger] final(env).episodes()[old(env).episodes().len() + i],
                    )
            },
            r matches Err(AgentError::Env(e)) ==> final(env).failure() == Some(e),
            r matches Err(AgentError::Table(e)) ==> e == TableError::StateOutOfRange,
    {
        let ghost n0 = env.episodes().len() as int;
        let mut rewards: Vec<i64> = Vec::new();
        let mut lengths: Vec<usize> = Vec::new();
        let mut k: usize = 0;
        assert(env.episodes().take(n0) =~= old(env).episodes());
        while k < episodes
            invariant
                self.wf(),
                env.inv(),
                self.table() == old(self).table(),
                self.eps() == old(self).eps(),
                self.gamma() == old(self).gamma(),
                self.rule() == old(self).rule(),
                greedy || old(self).eps() == 0 ==> *self == *old(self),
                k <= episodes,
                k == 0 ==> *self == *old(self) && *env == *old(env),
                n0 == old(env).episodes().len(),
                env.episodes().take(n0) == old(env).episodes(),
                plays(env.episodes(), n0, rewards@, lengths@, k as nat),
                greedy || old(self).eps() == 0 ==> forall|i: int|
                    0 <= i < k ==> greedy_episode(
                        old(self).table()@,
                        #[trigger] env.episodes()[n0 + i],
                    ),
            decreases episodes - k,
        {
            let ghost prev = env.episodes();
            let ghost rewards0 = rewards@;
            let ghost lengths0 = lengths@;
            let (reward, steps) = match self.play_episode(env, greedy) {
                Ok(t) => t,
                Err(e) => return Err(e),
            };
            rewards.push(reward);
            lengths.push(steps);
            proof {
                let h = env.episodes();
                assert(h.take(n0) =~= prev.take(n0));
                assert forall|i: int| 0 <= i < k + 1 implies #[trigger] played(
                    h[n0 + i],
                    rewards@[i],
                    lengths@[i],
                ) by {
                    if i < k {
                        assert(h.take(prev.len() as int)[n0 + i] == h[n0 + i]);
                        assert(rewards@[i] == rewards0[i]);
                        assert(lengths@[i] == lengths0[i]);
                        assert(played(prev[n0 + i], rewards0[i], lengths0[i]));
                    }
                }
                if greedy || old(self).eps() == 0 {
                    assert forall|i: int| 0 <= i < k + 1 implies greedy_episode(
                        old(self).table()@,
                        #[trigger] h[n0 + i],
                    ) by {
                        if i < k {
                            assert(h.take(prev.len() as int)[n0 + i] == h[n0 + i]);
                            assert(greedy_episode(old(self).table()@, prev[n0 + i]));
                        }
                    }
                }
            }
            k = k + 1;
        }
        Ok((rewards, lengths))
    }

    /// Runs `episodes` episodes with the agent's live policy, exploration
    /// included, and returns the total reward and the length of each. The
    /// value table and epsilon are left as they were; the random stream
    /// advances unless epsilon is zero, and then every action is the first
    /// of greatest value.
    pub fn evaluate<E: Env>(&mut self, env: &mut E, episodes: usize) -> (r: Result<
        (Vec<i64>, Vec<usize>),
        AgentError,
    >)
        requires
            old(self).wf(),
            old(env).inv(),
        ensures
            final(self).wf(),
            final(env).inv(),
            final(self).table() == old(self).table(),
            final(self).table()@ == old(self).table()@,
            final(self).eps() == old(self).eps(),
            final(self).gamma() == old(self).gamma(),
            final(self).rule() == old(self).rule(),
            old(self).eps() == 0 ==> *final(self) == *old(self),
            episodes == 0 ==> (r matches Ok((rewards, lengths)) && rewards@.len() == 0
                && lengths@.len() == 0) && *final(self) == *old(self) && *final(env) == *old(env),
            final(env).episodes().len() >= old(env).episodes().len(),
            final(env).episodes().take(old(env).episodes().len() as int) == old(env).episodes(),
            r matches Ok((rewards, lengths)) ==> {
                &&& plays(
                    final(env).episodes(),
                    old(env).episodes().len() as int,
                    rewards@,
                    lengths@,
                    episodes as nat,
                )
                &&& old(self).eps() == 0 ==> forall|i: int|
                    0 <= i < episodes ==> greedy_episode(
                        old(self).table()@,
                        #[trigger] final(env).episodes()[old(env).episodes().len() + i],
                    )
            },
            r matches Err(AgentError::Env(e)) ==> final(env).failure() == Some(e),
            r matches Err(AgentError::Table(e)) ==> e == TableError::StateOutOfRange,
    {
        self.run_evaluation(env, episodes, false)
    }

    /// Runs `episodes` episodes that always take the first action of
    /// greatest value, and returns the total reward and the length of each.
    /// Nothing of the agent changes, the random stream included.
    pub fn evaluate_greedy<E: Env>(&mut self, env: &mut E, episodes: usize) -> (r: Result<
        (Vec<i64>, Vec<usize>),
        AgentError,
    >)
        requires
            old(self).wf(),
            old(env).inv(),
        ensures
            final(env).inv(),
            *final(self) == *old(self),
            episodes == 0 ==> (r matches Ok((rewards, lengths)) && rewards@.len() == 0
                && lengths@.len() == 0) && *final(env) == *old(env),
            final(env).episodes().len() >= old(env).episodes().len(),
            final(env).episodes().take(old(env).episodes().len() as int) == old(env).episodes(),
            r matches Ok((rewards, lengths)) ==> {
                &&& plays(
                    final(env).episodes(),
                    old(env).episodes().len() as int,
                    rewards@,
                    lengths@,
                    episodes as nat,
                )
                &&& forall|i: int|
                    0 <= i < episodes ==> greedy_episode(
                        old(self).table()@,
                        #[trigger] final(env).episodes()[old(env).episodes().len() + i],
                    )
            },
            r matches Err(AgentError::Env(e)) ==> final(env).failure() == Some(e),
            r matches Err(AgentError::Table(e)) ==> e == TableError::StateOutOfRange,
    {
        self.run_evaluation(env, episodes, true)
    }

    /// Trains for `n_episodes` episodes. After episode `i` (counting from
    /// zero) with `i % eval_at == 0`, runs `eval_for` greedy episodes and
    /// records their mean reward and mean length. Every episode ends in a
    /// terminal transition, so epsilon decays once per episode.
    pub fn learn<E: Env>(
        &mut self,
        env: &mut E,
        n_episodes: usize,
        eval_at: usize,
        eval_for: usize,
    ) -> (r: Result<TrainResults, AgentError>)
        requires
            old(self).wf(),
            old(env).inv(),
            eval_at > 0,
        ensures
            final(self).wf(),
            final(env).inv(),
            final(self).gamma() == old(self).gamma(),
            final(self).rule() == old(self).rule(),
            final(self).table().rate() == old(self).table().rate(),
            final(self).table().states() == old(self).table().states(),
            final(self).table().actions() == old(self).table().actions(),
            n_episodes == 0 ==> (r matches Ok(res) && res.training_reward@.len() == 0
                && res.training_length@.len() == 0 && res.training_error@.len() == 0
                && res.mean_evaluation_reward@.len() == 0 && res.mean_evaluation_length@.len()
                == 0) && *final(self) == *old(self) && *final(env) == *old(env),
            final(env).episodes().take(old(env).episodes().len() as int) == old(env).episodes(),
            r matches Ok(res) ==> {
                &&& res.training_reward@.len() == n_episodes
                &&& res.training_length@.len() == n_episodes
                &&& final(env).episodes().len() == old(env).episodes().len() + training_slot(
                    n_episodes as int,
                    eval_at as int,
                    eval_for as int,
                )
                &&& forall|i: int|
                    0 <= i < n_episodes ==> #[trigger] played(
                        final(env).episodes()[old(env).episodes().len() + training_slot(
                            i,
                            eval_at as int,
                            eval_for as int,
                        )],
                        res.training_reward@[i],
                        res.training_length@[i],
                    )
                &&& res.training_error@.len() == sum_lengths(res.training_length@)
                &&& res.mean_evaluation_reward@.len() == (n_episodes + eval_at - 1) / (
                eval_at as int)
                &&& res.mean_evaluation_length@.len() == (n_episodes + eval_at - 1) / (
                eval_at as int)
                &&& forall|j: int|
                    0 <= j < res.mean_evaluation_reward@.len() ==> #[trigger] evaluated(
                        final(env).episodes(),
                        old(env).episodes().len() + j * (eval_at + eval_for) + 1,
                        eval_for as nat,
                        res.mean_evaluation_reward@[j],
                        res.mean_evaluation_length@[j],
                    )
                &&& final(self).eps() == decayed_n(old(self).eps(), n_episodes as nat)
            },
            r matches Err(AgentError::Env(e)) ==> final(env).failure() == Some(e),
            r matches Err(AgentError::Table(e)) ==> e == TableError::StateOutOfRange,
    {
        let ghost n0 = env.episodes().len() as int;
        let ghost k = eval_at as int;
        let ghost m = eval_for as int;
        let mut training_reward: Vec<i64> = Vec::new();
        let mut training_length: Vec<usize> = Vec::new();
        let mut training_error: Vec<i64> = Vec::new();
        let mut mean_evaluation_reward: Vec<i64> = Vec::new();
        let mut mean_evaluation_length: Vec<i64> = Vec::new();
        let mut episode: usize = 0;
        assert(env.episodes().take(n0) =~= old(env).episodes());
        assert(evaluations(0, k as nat) == 0);
        assert(m * evaluations(0, k as nat) == 0);
        while episode < n_episodes
            invariant
                self.wf(),
                env.inv(),
                eval_at > 0,
                k == eval_at,
                m == eval_for,
                self.gamma() == old(self).gamma(),
                self.rule() == old(self).rule(),
                self.table().rate() == old(self).table().rate(),
                self.table().states() == old(self).table().states(),
                self.table().actions() == old(self).table().actions(),
                episode <= n_episodes,
                episode == 0 ==> *self == *old(self) && *env == *old(env),
                n0 == old(env).episodes().len(),
                env.episodes().take(n0) == old(env).episodes(),
                env.episodes().len() == n0 + episode + m * evaluations(episode as nat, k as nat),
                training_reward@.len() == episode,
                training_length@.len() == episode,
                forall|i: int|
                    0 <= i < episode ==> #[trigger] played(
                        env.episodes()[n0 + i + m * evaluations(i as nat, k as nat)],
                        training_reward@[i],
                        training_length@[i],
                    ),
                training_error@.len() == sum_lengths(training_length@),
                mean_evaluation_reward@.len() == evaluations(episode as nat, eval_at as nat),
                mean_evaluation_length@.len() == evaluations(episode as nat, eval_at as nat),
                forall|j: int|
                    0 <= j < mean_evaluation_reward@.len() ==> #[trigger] evaluated(
                        env.episodes(),
                        n0 + j * (k + m) + 1,
                        m as nat,
                        mean_evaluation_reward@[j],
                        mean_evaluation_length@[j],
                    ),
                self.eps() == decayed_n(old(self).eps(), episode as nat),
            decreases n_episodes - episode,
        {
            let ghost prev = env.episodes();
            let ghost before = training_length@;
            let ghost rewards0 = training_reward@;
            let (reward, steps) = match self.train_episode(env, &mut training_error) {
                Ok(t) => t,
                Err(e) => return Err(e),
            };
            let ghost mid = env.episodes();
            proof {
                assert forall|i: int| 0 <= i < mean_evaluation_reward@.len() implies #[trigger] evaluated(
                    mid,
                    n0 + i * (k + m) + 1,
                    m as nat,
                    mean_evaluation_reward@[i],
                    mean_evaluation_length@[i],
                ) by {
                    lemma_evaluated_stable(
                        prev,
                        mid,
                        n0 + i * (k + m) + 1,
                        m as nat,
                        mean_evaluation_reward@[i],
                        mean_evaluation_length@[i],
                    );
                }
            }
            training_reward.push(reward);
            training_length.push(steps);
            assert(training_length@.drop_last() =~= before);
            if episode % eval_at == 0 {
                let outcome = self.evaluate_greedy(env, eval_for);
                proof {
                    let h = env.episodes();
                    assert(h.take(n0) =~= old(env).episodes()) by {
                        assert forall|j: int| 0 <= j < n0 implies h[j] == prev[j] by {
                            assert(h.take(mid.len() as int)[j] == h[j]);
                            assert(mid.take(prev.len() as int)[j] == mid[j]);
                            assert(prev.take(n0)[j] == prev[j]);
                        }
                    }
                }
                let (rewards, lengths) = match outcome {
                    Ok(t) => t,
                    Err(e) => return Err(e),
                };
                let ghost mr0 = mean_evaluation_reward@;
                let ghost ml0 = mean_evaluation_length@;
                mean_evaluation_reward.push(mean_of_rewards(&rewards));
                mean_evaluation_length.push(mean_of_lengths(&lengths));
                proof {
                    let h = env.episodes();
                    let j = evaluations(episode as nat, k as nat) as int;
                    lemma_evaluations(episode as nat, k as nat);
                    lemma_fundamental_div_mod(episode as int, k);
                    let q = episode as int / k;
                    assert(episode as int == k * q);
                    assert(q * k <= episode + k - 1 < (q + 1) * k) by (nonlinear_arith)
                        requires episode as int == k * q, k > 0;
                    lemma_div_small(episode + k - 1, k, q);
                    assert(j == q);
                    assert(episode as int + m * j == j * (k + m)) by (nonlinear_arith)
                        requires episode as int == k * q, j == q;
                    let start = mid.len() as int;
                    assert(start == n0 + j * (k + m) + 1);
                    assert forall|t: int| 0 <= t < m implies h[start + t] == h[start + t] && played(
                        h[start + t],
                        rewards@[t],
                        lengths@[t],
                    ) by {
                        assert(played(h[start + t], rewards@[t], lengths@[t]));
                    }
                    assert(rewards@ =~= totals_of(h, start, m as nat));
                    assert(lengths@ =~= lengths_of(h, start, m as nat));
                    assert forall|i: int| 0 <= i < mean_evaluation_reward@.len() implies #[trigger] evaluated(
                        h,
                        n0 + i * (k + m) + 1,
                        m as nat,
                        mean_evaluation_reward@[i],
                        mean_evaluation_length@[i],
                    ) by {
                        if i < j {
                            assert(mean_evaluation_reward@[i] == mr0[i]);
                            assert(mean_evaluation_length@[i] == ml0[i]);
                            assert(evaluated(mid, n0 + i * (k + m) + 1, m as nat, mr0[i], ml0[i]));
                            lemma_evaluated_stable(mid, h, n0 + i * (k + m) + 1, m as nat, mr0[i], ml0[i]);
                        }
                    }
                }
            }
            proof {
                let h = env.episodes();
                let e = episode as int;
                let ev = evaluations(episode as nat, k as nat);
                assert(evaluations((episode + 1) as nat, k as nat) == ev + if e % k == 0 {
                    1nat
                } else {
                    0nat
                });
                assert(m * (ev + 1) == m * ev + m) by (nonlinear_arith);
                assert(h.len() == n0 + e + 1 + m * evaluations((episode + 1) as nat, k as nat));
                assert(h.take(mid.len() as int)[mid.len() - 1] == h[mid.len() - 1]);
                assert(h.take(n0) =~= prev.take(n0)) by {
                    assert forall|j: int| 0 <= j < n0 implies h[j] == prev[j] by {
                        assert(h.take(mid.len() as int)[j] == h[j]);
                        assert(mid.take(prev.len() as int)[j] == mid[j]);
                    }
                }
                assert forall|i: int| 0 <= i < e + 1 implies #[trigger] played(
                    h[n0 + i + m * evaluations(i as nat, k as nat)],
                    training_reward@[i],
                    training_length@[i],
                ) by {
                    if i < e {
                        let idx = n0 + i + m * evaluations(i as nat, k as nat);
                        assert(played(prev[idx], rewards0[i], before[i]));
                        lemma_evaluations_monotone(i as nat, episode as nat, k as nat);
                        assert(m * evaluations(i as nat, k as nat) <= m * ev) by (nonlinear_arith)
                            requires evaluations(i as nat, k as nat) <= ev, m >= 0;
                        assert(h.take(mid.len() as int)[idx] == h[idx]);
                        assert(mid.take(prev.len() as int)[idx] == mid[idx]);
                    }
                }
            }
            episode = episode + 1;
        }
        proof {
            lemma_evaluations(n_episodes as nat, eval_at as nat);
            assert forall|i: int| 0 <= i < n_episodes implies training_slot(
                i,
                eval_at as int,
                eval_for as int,
            ) == i + m * evaluations(i as nat, k as nat) by {
                lemma_evaluations(i as nat, eval_at as nat);
            }
            assert forall|i: int| 0 <= i < n_episodes implies #[trigger] played(
                env.episodes()[n0 + training_slot(i, eval_at as int, eval_for as int)],
                training_reward@[i],
                training_length@[i],
            ) by {
                lemma_evaluations(i as nat, eval_at as nat);
                assert(played(
                    env.episodes()[n0 + i + m * evaluations(i as nat, k as nat)],
                    training_reward@[i],
                    training_length@[i],
                ));
            }
            assert forall|j: int| 0 <= j < mean_evaluation_reward@.len() implies #[trigger] evaluated(
                env.episodes(),
                old(env).episodes().len() + j * (eval_at + eval_for) + 1,
                eval_for as nat,
                mean_evaluation_reward@[j],
                mean_evaluation_length@[j],
            ) by {
                assert(evaluated(
                    env.episodes(),
                    n0 + j * (k + m) + 1,
                    m as nat,
                    mean_evaluation_reward@[j],
                    mean_evaluation_length@[j],
                ));
            }
        }
        Ok(TrainResults {
            training_reward,
            training_length,
            training_error,
            mean_evaluation_reward,
            mean_evaluation_length,
        })
    }

    /// The exploration rate, in fixed point.
    pub fn epsilon(&self) -> (r: u64)
        ensures
            r == self.eps(),
    {
        self.epsilon
    }

    /// The discount factor, in fixed point.
    pub fn discount_factor(&self) -> (r: u64)
        ensures
            r == self.gamma(),
    {
        self.discount_factor
    }

    /// The control rule.
    pub fn control(&self) -> (r: Control)
        ensures
            r == self.rule(),
    {
        self.control
    }
}

} // verus!
