//! What the agent needs of an environment, and the two environments used
//! to exercise it.
use vstd::prelude::*;

pub mod blackjack;
pub mod clifwalking;

verus! {

/// A step was asked for that the environment cannot take.
#[derive(Debug, Clone, Copy, PartialEq, Eq, Structural)]
pub enum EnvError {
    /// `step` was called before `reset`, or after a terminal transition.
    EnvNotReady,
    /// The action index lies outside the environment's action space.
    InvalidAction,
}

/// One transition: the action taken, then the state, reward and end flag
/// that came back.
pub type Transition = (usize, usize, i64, bool);

/// The episodes of `h` with transition `t` added to the last one.
pub open spec fn extended(
    h: Seq<(usize, Seq<Transition>)>,
    t: Transition,
) -> Seq<(usize, Seq<Transition>)> {
    h.update(h.len() - 1, (h.last().0, h.last().1.push(t)))
}

/// A discrete environment: states and actions are indices, rewards are
/// fixed-point integers.
pub trait Env {
    /// The environment's own well-formedness.
    spec fn inv(&self) -> bool;

    /// A bound on the non-terminal steps that are still possible before a
    /// terminal transition is forced.
    spec fn fuel(&self) -> nat;

    /// Every episode begun by `reset`, in order: its first state and the
    /// transitions taken in it.
    spec fn episodes(&self) -> Seq<(usize, Seq<Transition>)>;

    /// The error of the most recent `step`, when that call failed.
    spec fn failure(&self) -> Option<EnvError>;

    /// Starts a new episode and returns its first state.
    fn reset(&mut self) -> (r: usize)
        requires
            old(self).inv(),
        ensures
            final(self).inv(),
            final(self).fuel() < usize::MAX,
            final(self).episodes() == old(self).episodes().push((r, Seq::<Transition>::empty())),
            final(self).failure() is None,
    ;

    /// Takes `action` and returns the next state, the reward and whether
    /// the episode ended.
    fn step(&mut self, action: usize) -> (r: Result<(usize, i64, bool), EnvError>)
        requires
            old(self).inv(),
        ensures
            final(self).inv(),
            (r matches Ok((_, _, false))) ==> final(self).fuel() < old(self).fuel(),
            r matches Ok((next, reward, done)) ==> {
                &&& old(self).episodes().len() > 0
                &&& final(self).episodes() == extended(
                    old(self).episodes(),
                    (action, next, reward, done),
                )
                &&& final(self).failure() is None
            },
            r matches Err(e) ==> final(self).episodes() == old(self).episodes()
                && final(self).failure() == Some(e),
    ;

    /// A human-readable picture of the current state.
    fn render(&self) -> String
        requires
            self.inv(),
    ;
}

} // verus!
