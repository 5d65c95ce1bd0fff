//! The value table: a dense estimate of return for every (state, action)
//! pair, held in one flat buffer indexed by `state * n_actions + action`.
use vstd::prelude::*;

use crate::fixed::{saturate, saturated, scale, scaled, ONE};

verus! {

/// Raised when a state or action index lies outside the table.
#[derive(Debug, Clone, Copy, PartialEq, Eq, Structural)]
pub enum TableError {
    StateOutOfRange,
    ActionOutOfRange,
}

/// A table of `n_states` rows of `n_actions` zeros.
pub open spec fn zeros(n_states: nat, n_actions: nat) -> Seq<Seq<i64>> {
    Seq::new(n_states, |s: int| Seq::new(n_actions, |a: int| 0i64))
}

/// `t` has `n_states` rows of `n_actions` entries each.
pub open spec fn shaped(t: Seq<Seq<i64>>, n_states: nat, n_actions: nat) -> bool {
    t.len() == n_states && forall|s: int| 0 <= s < t.len() ==> #[trigger] t[s].len() == n_actions
}

/// The entry that `update` writes: the old value moved by the learning rate
/// times the error, saturating at the bounds of `i64`.
pub open spec fn updated_value(old: i64, rate: int, error: int) -> i64 {
    saturated(old + scaled(rate, error))
}

/// An update moves its entry by exactly the learning rate times the error
/// (in fixed point, rounded toward zero) whenever the result fits in `i64`.
pub proof fn lemma_update_exact(old: i64, rate: int, error: int)
    requires
        i64::MIN <= old + scaled(rate, error) <= i64::MAX,
    ensures
        updated_value(old, rate, error) == old + scaled(rate, error),
{
}

/// State-action values with a fixed learning rate, in fixed point.
#[derive(Debug)]
pub struct Policy {
    learning_rate: u64,
    n_states: usize,
    n_actions: usize,
    values: Vec<i64>,
}

proof fn lemma_index(s: int, a: int, n_states: int, n_actions: int)
    requires
        0 <= s < n_states,
        0 <= a < n_actions,
    ensures
        0 <= s * n_actions + a < n_states * n_actions,
        s * n_actions <= s * n_actions + a < (s + 1) * n_actions,
{
    assert(0 <= s * n_actions + a < n_states * n_actions) by (nonlinear_arith)
        requires 0 <= s < n_states, 0 <= a < n_actions;
    assert((s + 1) * n_actions == s * n_actions + n_actions) by (nonlinear_arith);
}

proof fn lemma_index_distinct(s1: int, a1: int, s2: int, a2: int, n_actions: int)
    requires
        0 <= a1 < n_actions,
        0 <= a2 < n_actions,
        0 <= s1,
        0 <= s2,
        s1 != s2 || a1 != a2,
    ensures
        s1 * n_actions + a1 != s2 * n_actions + a2,
{
    if s1 == s2 {
    } else if s1 < s2 {
        assert(s1 * n_actions + n_actions <= s2 * n_actions) by (nonlinear_arith)
            requires s1 < s2, 0 <= n_actions;
    } else {
        assert(s2 * n_actions + n_actions <= s1 * n_actions) by (nonlinear_arith)
            requires s2 < s1, 0 <= n_actions;
    }
}

impl View for Policy {
    type V = Seq<Seq<i64>>;

    closed spec fn view(&self) -> Seq<Seq<i64>> {
        Seq::new(
            self.n_states as nat,
            |s: int| Seq::new(self.n_actions as nat, |a: int| self.values@[s * self.n_actions + a]),
        )
    }
}

impl Policy {
    /// The learning rate, in fixed point.
    pub closed spec fn rate(&self) -> int {
        self.learning_rate as int
    }

    /// The number of states.
    pub closed spec fn states(&self) -> nat {
        self.n_states as nat
    }

    /// The number of actions.
    pub closed spec fn actions(&self) -> nat {
        self.n_actions as nat
    }

    /// The flat buffer holds exactly one entry per state-action pair.
    pub closed spec fn buffer_ok(&self) -> bool {
        &&& self.values@.len() == self.n_states * self.n_actions
        &&& self.n_states * self.n_actions <= usize::MAX
    }

    /// The table is well formed: its buffer matches its shape, it has at
    /// least one action, and its learning rate lies in `(0, ONE]`.
    pub open spec fn wf(&self) -> bool {
        &&& self.buffer_ok()
        &&& shaped(self@, self.states(), self.actions())
        &&& self.actions() > 0
        &&& 0 < self.rate() <= ONE
    }

    proof fn lemma_shaped(&self)
        ensures
            shaped(self@, self.states(), self.actions()),
    {
    }

    /// A table of `n_states` by `n_actions` zeros with the given learning rate.
    pub fn new(n_states: usize, n_actions: usize, learning_rate: u64) -> (r: Self)
        requires
            n_actions > 0,
            0 < learning_rate <= ONE,
            n_states * n_actions <= usize::MAX,
        ensures
            r.wf(),
            r@ == zeros(n_states as nat, n_actions as nat),
            r.rate() == learning_rate,
            r.states() == n_states,
            r.actions() == n_actions,
    {
        let total: usize = n_states * n_actions;
        let mut values: Vec<i64> = Vec::new();
        while values.len() < total
            invariant
                values.len() <= total,
                forall|i: int| 0 <= i < values.len() ==> values@[i] == 0,
            decreases total - values.len(),
        {
            values.push(0);
        }
        let r = Policy { learning_rate, n_states, n_actions, values };
        proof {
            r.lemma_shaped();
            assert forall|s: int| 0 <= s < n_states implies #[trigger] r@[s] =~= Seq::new(
                n_actions as nat,
                |a: int| 0i64,
            ) by {
                assert forall|a: int| 0 <= a < n_actions implies r@[s][a] == 0i64 by {
                    lemma_index(s, a, n_states as int, n_actions as int);
                }
            }
            assert(r@ =~= zeros(n_states as nat, n_actions as nat));
        }
        r
    }

    /// The current estimates of every action at `obs`.
    pub fn get_values(&self, obs: usize) -> (r: Result<Vec<i64>, TableError>)
        requires
            self.wf(),
        ensures
            obs < self.states() <==> r is Ok,
            r matches Ok(row) ==> row@ == self@[obs as int],
            r matches Err(e) ==> e == TableError::StateOutOfRange,
    {
        if obs >= self.n_states {
            return Err(TableError::StateOutOfRange);
        }
        proof {
            lemma_index(obs as int, 0, self.n_states as int, self.n_actions as int);
        }
        let base: usize = obs * self.n_actions;
        let mut row: Vec<i64> = Vec::new();
        let mut a: usize = 0;
        while a < self.n_actions
            invariant
                self.wf(),
                obs < self.n_states,
                base == obs * self.n_actions,
                a <= self.n_actions,
                row@.len() == a,
                forall|j: int| 0 <= j < a ==> row@[j] == self@[obs as int][j],
            decreases self.n_actions - a,
        {
            proof {
                lemma_index(obs as int, a as int, self.n_states as int, self.n_actions as int);
            }
            row.push(self.values[base + a]);
            a = a + 1;
        }
        assert(row@ =~= self@[obs as int]);
        Ok(row)
    }

    /// The same as `get_values`.
    pub fn predict(&self, obs: usize) -> (r: Result<Vec<i64>, TableError>)
        requires
            self.wf(),
        ensures
            obs < self.states() <==> r is Ok,
            r matches Ok(row) ==> row@ == self@[obs as int],
            r matches Err(e) ==> e == TableError::StateOutOfRange,
    {
        self.get_values(obs)
    }

    /// The estimate of one action at one state.
    pub fn value(&self, obs: usize, action: usize) -> (r: Result<i64, TableError>)
        requires
            self.wf(),
        ensures
            (obs < self.states() && action < self.actions()) <==> r is Ok,
            r matches Ok(v) ==> v == self@[obs as int][action as int],
            r matches Err(e) ==> (e == TableError::StateOutOfRange <==> obs >= self.states()),
    {
        if obs >= self.n_states {
            return Err(TableError::StateOutOfRange);
        }
        if action >= self.n_actions {
            return Err(TableError::ActionOutOfRange);
        }
        proof {
            lemma_index(obs as int, action as int, self.n_states as int, self.n_actions as int);
        }
        Ok(self.values[obs * self.n_actions + action])
    }

    /// Moves the estimate of `action` at `obs` by `learning_rate * error`
    /// (saturating at the bounds of `i64`) and returns the change applied.
    /// Every other entry stays as it was.
    pub fn update(&mut self, obs: usize, action: usize, error: i64) -> (r: Result<i64, TableError>)
        requires
            old(self).wf(),
        ensures
            final(self).wf(),
            final(self).rate() == old(self).rate(),
            final(self).states() == old(self).states(),
            final(self).actions() == old(self).actions(),
            (obs < old(self).states() && action < old(self).actions()) <==> r is Ok,
            r matches Err(e) ==> (e == TableError::StateOutOfRange <==> obs >= old(self).states()),
            r is Err ==> final(self)@ == old(self)@,
            r matches Ok(delta) ==> {
                let before = old(self)@[obs as int][action as int];
                let after = updated_value(before, old(self).rate(), error as int);
                &&& final(self)@ == old(self)@.update(
                    obs as int,
                    old(self)@[obs as int].update(action as int, after),
                )
                &&& delta == after - before
            },
    {
        if obs >= self.n_states {
            return Err(TableError::StateOutOfRange);
        }
        if action >= self.n_actions {
            return Err(TableError::ActionOutOfRange);
        }
        proof {
            lemma_index(obs as int, action as int, self.n_states as int, self.n_actions as int);
        }
        let ghost prev = self@;
        let idx: usize = obs * self.n_actions + action;
        let before: i64 = self.values[idx];
        let step: i64 = scale(self.learning_rate, error);
        let after: i64 = saturate(before as i128 + step as i128);
        self.values.set(idx, after);
        proof {
            self.lemma_shaped();
            let expected = prev.update(obs as int, prev[obs as int].update(action as int, after));
            assert forall|s: int| 0 <= s < self.n_states implies #[trigger] self@[s] =~= expected[s] by {
                assert forall|a: int| 0 <= a < self.n_actions implies self@[s][a] == expected[s][a] by {
                    lemma_index(s, a, self.n_states as int, self.n_actions as int);
                    if s != obs || a != action {
                        lemma_index_distinct(s, a, obs as int, action as int, self.n_actions as int);
                    }
                }
            }
            assert(self@ =~= expected);
        }
        Ok(after - before)
    }

    /// Sets every entry back to zero; the shape and learning rate stay.
    pub fn reset(&mut self)
        requires
            old(self).wf(),
        ensures
            final(self).wf(),
            final(self)@ == zeros(old(self).states(), old(self).actions()),
            final(self).rate() == old(self).rate(),
            final(self).states() == old(self).states(),
            final(self).actions() == old(self).actions(),
    {
        let mut i: usize = 0;
        while i < self.values.len()
            invariant
                self.values@.len() == self.n_states * self.n_actions,
                self.n_states == old(self).n_states,
                self.n_actions == old(self).n_actions,
                self.learning_rate == old(self).learning_rate,
                i <= self.values@.len(),
                forall|j: int| 0 <= j < i ==> self.values@[j] == 0,
            decreases self.values@.len() - i,
        {
            self.values.set(i, 0);
            i = i + 1;
        }
        proof {
            self.lemma_shaped();
            let z = zeros(self.n_states as nat, self.n_actions as nat);
            assert forall|s: int| 0 <= s < self.n_states implies #[trigger] self@[s] =~= z[s] by {
                assert forall|a: int| 0 <= a < self.n_actions implies self@[s][a] == z[s][a] by {
                    lemma_index(s, a, self.n_states as int, self.n_actions as int);
                }
            }
            assert(self@ =~= z);
        }
    }

    /// The number of states.
    pub fn n_states(&self) -> (r: usize)
        ensures
            r == self.states(),
    {
        self.n_states
    }

    /// The number of actions.
    pub fn n_actions(&self) -> (r: usize)
        ensures
            r == self.actions(),
    {
        self.n_actions
    }

    /// The learning rate, in fixed point.
    pub fn learning_rate(&self) -> (r: u64)
        ensures
            r == self.rate(),
    {
        self.learning_rate
    }
}

} // verus!
