//! A 4 by 12 grid with a cliff along the bottom edge between the start
//! (bottom left) and the goal (bottom right).
use vstd::prelude::*;

use vstd::string::StringExecFns;

use crate::env::{extended, Env, EnvError, Transition};
use crate::fixed::ONE;

verus! {

/// Number of columns of the grid.
pub const NCOL: usize = 12;

/// Number of rows of the grid.
pub const NROW: usize = 4;

/// The state every episode starts from.
pub const START_POSITION: usize = 36;

/// The state that ends an episode successfully.
pub const GOAL_POSITION: usize = 47;

/// Reward of an ordinary move, in fixed point.
pub const STEP_REWARD: i64 = -ONE;

/// Reward of a move into the cliff, in fixed point.
pub const CLIFF_REWARD: i64 = -100 * ONE;

/// The four moves, in the order of their indices.
#[derive(Debug, Clone, Copy, PartialEq, Eq, Structural)]
pub enum CliffWalkingAction {
    LEFT,
    DOWN,
    RIGHT,
    UP,
}

impl CliffWalkingAction {
    /// The action index of this move.
    pub fn index(&self) -> (r: usize)
        ensures
            r == match self {
                CliffWalkingAction::LEFT => 0usize,
                CliffWalkingAction::DOWN => 1usize,
                CliffWalkingAction::RIGHT => 2usize,
                CliffWalkingAction::UP => 3usize,
            },
    {
        match self {
            CliffWalkingAction::LEFT => 0,
            CliffWalkingAction::DOWN => 1,
            CliffWalkingAction::RIGHT => 2,
            CliffWalkingAction::UP => 3,
        }
    }
}

/// The cells of the cliff: the bottom row between start and goal.
pub open spec fn is_cliff(pos: int) -> bool {
    37 <= pos <= 46
}

/// The cell reached from (`row`, `col`) by `action`; a move off the grid
/// stays in place, and an unknown action does not move.
pub open spec fn moved(row: int, col: int, action: int) -> (int, int) {
    if action == 0 {
        (row, if col > 0 { col - 1 } else { 0 })
    } else if action == 1 {
        (if row + 1 < NROW { row + 1 } else { NROW - 1 }, col)
    } else if action == 2 {
        (row, if col + 1 < NCOL { col + 1 } else { NCOL - 1 })
    } else if action == 3 {
        (if row > 0 { row - 1 } else { 0 }, col)
    } else {
        (row, col)
    }
}

/// The state, reward and end flag of taking `action` at state `pos`.
pub open spec fn transition(pos: int, action: int) -> (usize, i64, bool) {
    let (row, col) = moved(pos / NCOL as int, pos % NCOL as int, action);
    let next = row * NCOL + col;
    (
        next as usize,
        if is_cliff(next) { CLIFF_REWARD } else { STEP_REWARD },
        is_cliff(next) || next == GOAL_POSITION,
    )
}

/// The character at index `j` of the picture of the grid with the player
/// at `pos`: rows of twelve cells separated by newlines, the player drawn
/// as `@`, the cliff as `!`, every other cell as `_`.
pub open spec fn map_char(pos: int, j: int) -> char {
    let row = j / 13;
    let col = j % 13;
    if col == 12 {
        '\n'
    } else if row * 12 + col == pos {
        '@'
    } else if row == 3 && 1 <= col <= 10 {
        '!'
    } else {
        '_'
    }
}

/// The picture of the grid with the player at `pos`.
pub open spec fn picture(pos: int) -> Seq<char> {
    Seq::new(51, |j: int| map_char(pos, j))
}

proof fn lemma_cell_index(row: int, col: int)
    requires
        0 <= row < 4,
        0 <= col < 13,
    ensures
        (row * 13 + col) / 13 == row,
        (row * 13 + col) % 13 == col,
{
    if row == 0 {
    } else if row == 1 {
    } else if row == 2 {
    } else {
    }
}

fn cell_text(row: usize, col: usize, pos: usize) -> (r: &'static str)
    requires
        row < NROW,
        col < NCOL,
    ensures
        r@ == seq![map_char(pos as int, row * 13 + col)],
{
    proof {
        lemma_cell_index(row as int, col as int);
    }
    if row * NCOL + col == pos {
        proof {
            reveal_strlit("@");
        }
        assert("@"@ =~= seq!['@']);
        "@"
    } else if row == NROW - 1 && col > 0 && col < NCOL - 1 {
        proof {
            reveal_strlit("!");
        }
        assert("!"@ =~= seq!['!']);
        "!"
    } else {
        proof {
            reveal_strlit("_");
        }
        assert("_"@ =~= seq!['_']);
        "_"
    }
}

/// The grid world with a bound on the steps of one episode.
pub struct CliffWalkingEnv {
    ready: bool,
    player_pos: usize,
    max_steps: usize,
    curr_step: usize,
    record: Ghost<Seq<(usize, Seq<Transition>)>>,
    failed: Ghost<Option<EnvError>>,
}

impl CliffWalkingEnv {
    /// Number of actions.
    pub const N_ACTIONS: usize = 4;

    /// Number of states.
    pub const N_STATES: usize = 48;

    /// Whether a step may be taken.
    pub closed spec fn is_ready(&self) -> bool {
        self.ready
    }

    /// The player's cell.
    pub closed spec fn position(&self) -> int {
        self.player_pos as int
    }

    /// The steps taken in this episode.
    pub closed spec fn steps(&self) -> int {
        self.curr_step as int
    }

    /// The most steps an episode may take.
    pub closed spec fn limit(&self) -> int {
        self.max_steps as int
    }

    fn inc(row: usize, col: usize, a: usize) -> (r: (usize, usize))
        requires
            row < NROW,
            col < NCOL,
        ensures
            r.0 == moved(row as int, col as int, a as int).0,
            r.1 == moved(row as int, col as int, a as int).1,
            r.0 < NROW,
            r.1 < NCOL,
    {
        if a == 0 {
            (row, if col != 0 { col - 1 } else { 0 })
        } else if a == 1 {
            (if row + 1 < NROW { row + 1 } else { NROW - 1 }, col)
        } else if a == 2 {
            (row, if col + 1 < NCOL { col + 1 } else { NCOL - 1 })
        } else if a == 3 {
            (if row != 0 { row - 1 } else { 0 }, col)
        } else {
            (row, col)
        }
    }

    fn update_probability_matrix(row: usize, col: usize, action: usize) -> (r: (usize, i64, bool))
        requires
            row < NROW,
            col < NCOL,
        ensures
            r == transition(row * NCOL + col, action as int),
            r.0 < 48,
    {
        let (newrow, newcol) = Self::inc(row, col, action);
        let newstate: usize = newrow * NCOL + newcol;
        let win: bool = newstate == GOAL_POSITION;
        let lose: bool = 37 <= newstate && newstate <= 46;
        let reward: i64 = if lose { CLIFF_REWARD } else { STEP_REWARD };
        assert((row * NCOL + col) / NCOL as int == row);
        assert((row * NCOL + col) % NCOL as int == col);
        (newstate, reward, lose || win)
    }

    /// A grid world whose episodes are cut off after `max_steps` steps;
    /// `reset` must come before the first step.
    pub fn new(max_steps: usize) -> (r: Self)
        requires
            max_steps < usize::MAX,
        ensures
            r.inv(),
            !r.is_ready(),
            r.limit() == max_steps,
            r.steps() == 0,
            r.episodes().len() == 0,
            r.failure() is None,
    {
        CliffWalkingEnv {
            ready: false,
            player_pos: 0,
            max_steps,
            curr_step: 0,
            record: Ghost(Seq::empty()),
            failed: Ghost(None),
        }
    }

    fn advance(&mut self, action: usize) -> (r: Result<(usize, i64, bool), EnvError>)
        requires
            old(self).inv(),
        ensures
            final(self).record == old(self).record,
            final(self).failed == old(self).failed,
            final(self).inv(),
            (r matches Ok((_, _, false))) ==> final(self).fuel() < old(self).fuel(),
            r is Ok ==> old(self).is_ready(),
            final(self).limit() == old(self).limit(),
            !old(self).is_ready() ==> r == Err::<(usize, i64, bool), EnvError>(
                EnvError::EnvNotReady,
            ) && final(self).position() == old(self).position() && !final(self).is_ready()
                && final(self).steps() == old(self).steps(),
            old(self).is_ready() && old(self).steps() >= old(self).limit() ==> r == Ok::<
                (usize, i64, bool),
                EnvError,
            >((0usize, STEP_REWARD, true)) && !final(self).is_ready(),
            old(self).is_ready() && old(self).steps() < old(self).limit() && action > 3 ==> r
                == Err::<(usize, i64, bool), EnvError>(EnvError::InvalidAction)
                && final(self).position() == old(self).position() && final(self).is_ready()
                && final(self).steps() == old(self).steps() + 1,
            old(self).is_ready() && old(self).steps() < old(self).limit() && action <= 3 ==> {
                let t = transition(old(self).position(), action as int);
                &&& r == Ok::<(usize, i64, bool), EnvError>(t)
                &&& final(self).position() == t.0
                &&& final(self).steps() == old(self).steps() + 1
                &&& final(self).is_ready() == !t.2
            },
    {
        if !self.ready {
            return Err(EnvError::EnvNotReady);
        }
        if self.curr_step >= self.max_steps {
            self.ready = false;
            return Ok((0, STEP_REWARD, true));
        }
        self.curr_step = self.curr_step + 1;
        if action > 3 {
            return Err(EnvError::InvalidAction);
        }
        let obs = Self::update_probability_matrix(
            self.player_pos / NCOL,
            self.player_pos % NCOL,
            action,
        );
        assert((self.player_pos / NCOL) * NCOL + self.player_pos % NCOL == self.player_pos);
        self.player_pos = obs.0;
        if obs.2 {
            self.ready = false;
        }
        Ok(obs)
    }

    /// Records the outcome of a step in the ghost history.
    fn note(&mut self, action: usize, r: Result<(usize, i64, bool), EnvError>) -> (out: Result<
        (usize, i64, bool),
        EnvError,
    >)
        requires
            r is Ok ==> old(self).record@.len() > 0,
        ensures
            out == r,
            final(self).ready == old(self).ready,
            final(self).player_pos == old(self).player_pos,
            final(self).max_steps == old(self).max_steps,
            final(self).curr_step == old(self).curr_step,
            r matches Ok((next, reward, done)) ==> final(self).record@ == extended(
                old(self).record@,
                (action, next, reward, done),
            ) && final(self).failed@ is None,
            r matches Err(e) ==> final(self).record@ == old(self).record@ && final(self).failed@
                == Some(e),
    {
        match r {
            Ok((next, reward, done)) => {
                self.record = Ghost(extended(self.record@, (action, next, reward, done)));
                self.failed = Ghost(None);
            },
            Err(e) => {
                self.failed = Ghost(Some(e));
            },
        }
        r
    }

}

impl Env for CliffWalkingEnv {
    open spec fn inv(&self) -> bool {
        &&& 0 <= self.position() < 48
        &&& 0 <= self.steps() <= self.limit() < usize::MAX
        &&& self.is_ready() ==> self.episodes().len() > 0
    }

    closed spec fn episodes(&self) -> Seq<(usize, Seq<Transition>)> {
        self.record@
    }

    closed spec fn failure(&self) -> Option<EnvError> {
        self.failed@
    }

    open spec fn fuel(&self) -> nat {
        if self.is_ready() {
            (self.limit() - self.steps()) as nat
        } else {
            0
        }
    }

    fn reset(&mut self) -> (r: usize)
        ensures
            r == START_POSITION,
            final(self).is_ready(),
            final(self).position() == START_POSITION,
            final(self).steps() == 0,
            final(self).limit() == old(self).limit(),
    {
        self.player_pos = START_POSITION;
        self.ready = true;
        self.curr_step = 0;
        self.record = Ghost(self.record@.push((START_POSITION, Seq::empty())));
        self.failed = Ghost(None);
        self.player_pos
    }

    fn step(&mut self, action: usize) -> (r: Result<(usize, i64, bool), EnvError>)
        ensures
            final(self).limit() == old(self).limit(),
            !old(self).is_ready() ==> r == Err::<(usize, i64, bool), EnvError>(
                EnvError::EnvNotReady,
            ) && final(self).position() == old(self).position() && !final(self).is_ready()
                && final(self).steps() == old(self).steps(),
            old(self).is_ready() && old(self).steps() >= old(self).limit() ==> r == Ok::<
                (usize, i64, bool),
                EnvError,
            >((0usize, STEP_REWARD, true)) && !final(self).is_ready(),
            old(self).is_ready() && old(self).steps() < old(self).limit() && action > 3 ==> r
                == Err::<(usize, i64, bool), EnvError>(EnvError::InvalidAction)
                && final(self).position() == old(self).position() && final(self).is_ready()
                && final(self).steps() == old(self).steps() + 1,
            old(self).is_ready() && old(self).steps() < old(self).limit() && action <= 3 ==> {
                let t = transition(old(self).position(), action as int);
                &&& r == Ok::<(usize, i64, bool), EnvError>(t)
                &&& final(self).position() == t.0
                &&& final(self).steps() == old(self).steps() + 1
                &&& final(self).is_ready() == !t.2
            },
    {
        let r = self.advance(action);
        self.note(action, r)
    }

    fn render(&self) -> (r: String)
        ensures
            r@ == picture(self.position()),
    {
        let ghost pos = self.position();
        let mut text: String = String::new();
        let mut row: usize = 0;
        while row < NROW
            invariant
                self.inv(),
                pos == self.position(),
                row <= NROW,
                text@.len() == if row == 0 {
                    0
                } else {
                    row * 13 - 1
                },
                forall|j: int| 0 <= j < text@.len() ==> text@[j] == map_char(pos, j),
            decreases NROW - row,
        {
            if row > 0 {
                let ghost prev = text@;
                proof {
                    reveal_strlit("\n");
                    lemma_cell_index(row as int - 1, 12);
                }
                text.append("\n");
                assert(text@ =~= prev.push('\n'));
            }
            let mut col: usize = 0;
            while col < NCOL
                invariant
                    self.inv(),
                    pos == self.position(),
                    row < NROW,
                    col <= NCOL,
                    text@.len() == row * 13 + col,
                    forall|j: int| 0 <= j < text@.len() ==> text@[j] == map_char(pos, j),
                decreases NCOL - col,
            {
                let ghost prev = text@;
                text.append(cell_text(row, col, self.player_pos));
                assert(text@ =~= prev.push(map_char(pos, row * 13 + col)));
                col = col + 1;
            }
            row = row + 1;
        }
        assert(text@ =~= picture(pos));
        text
    }
}

} // verus!
