//! A simplified blackjack: cards are drawn uniformly from 1 to 10, an ace
//! among the first two cards of a hand may count 11, and the dealer draws
//! while below 17.
use vstd::prelude::*;
use vstd::string::StringExecFns;

use rand::rngs::SmallRng;

use crate::env::{extended, Env, EnvError, Transition};
use crate::fixed::ONE;
use crate::random::{sample_uniform, seeded};

verus! {

/// What the player sees: their score, the dealer's score or shown card,
/// and whether they hold a usable ace.
#[derive(Debug, Clone, Copy, PartialEq, Eq, Structural)]
pub struct BlackJackObservation {
    pub p_score: u8,
    pub d_score: u8,
    pub p_ace: bool,
}

/// The state index of an observation.
pub open spec fn observation_id(p_score: int, d_score: int, p_ace: bool) -> int {
    (p_score - 1) + 18 * (d_score - 1) + if p_ace {
        200int
    } else {
        0int
    }
}

impl BlackJackObservation {
    pub fn new(p_score: u8, d_score: u8, p_ace: bool) -> (r: Self)
        ensures
            r == (BlackJackObservation { p_score, d_score, p_ace }),
    {
        BlackJackObservation { p_score, d_score, p_ace }
    }

    /// The state index: `(p_score - 1) + 18 * (d_score - 1)`, plus 200 with a
    /// usable ace. Both scores are at least one in every observation the
    /// game produces.
    pub fn identifier(&self) -> (r: usize)
        requires
            self.p_score >= 1,
            self.d_score >= 1,
        ensures
            r == observation_id(self.p_score as int, self.d_score as int, self.p_ace),
    {
        let p_score: usize = self.p_score as usize;
        let d_score: usize = self.d_score as usize;
        let p_ace: usize = if self.p_ace {
            1
        } else {
            0
        };
        (p_score - 1) + (18 * (d_score - 1)) + (200 * p_ace)
    }
}

/// The sum of the cards of a hand, every ace counted as one.
pub open spec fn hand_sum(h: Seq<u8>) -> int
    decreases h.len(),
{
    if h.len() == 0 {
        0
    } else {
        hand_sum(h.drop_last()) + h.last()
    }
}

/// The score of a hand: its sum, plus ten when it holds a usable ace and
/// that keeps it at most 21.
pub open spec fn score(sum: int, ace: bool) -> int {
    if ace && sum + 10 <= 21 {
        sum + 10
    } else {
        sum
    }
}

/// The score of a hand whose ace flag comes from its first two cards.
pub open spec fn hand_score(h: Seq<u8>) -> int {
    score(hand_sum(h), ace_flag(h))
}

/// The dealer's shown card as the player sees it: an ace counts 11.
pub open spec fn shown(card: u8) -> int {
    if card == 1 {
        11
    } else {
        card as int
    }
}

/// The player's reward once the dealer has finished drawing.
pub open spec fn outcome(p_score: int, d_score: int) -> i64 {
    if d_score > 21 {
        ONE
    } else if p_score > d_score {
        ONE
    } else if p_score < d_score {
        (-ONE) as i64
    } else {
        0
    }
}

/// Every card of `h` lies in `1..=10`.
pub open spec fn valid_cards(h: Seq<u8>) -> bool {
    forall|i: int| 0 <= i < h.len() ==> 1 <= #[trigger] h[i] <= 10
}

/// A hand's ace flag: one of its first two cards is an ace.
pub open spec fn ace_flag(h: Seq<u8>) -> bool {
    h[0] == 1 || h[1] == 1
}

proof fn lemma_hand_sum_push(h: Seq<u8>, c: u8)
    ensures
        hand_sum(h.push(c)) == hand_sum(h) + c,
{
    assert(h.push(c).drop_last() =~= h);
}

proof fn lemma_hand_sum_two(a: u8, b: u8)
    ensures
        hand_sum(seq![a, b]) == a + b,
{
    let s1 = seq![a];
    let s2 = seq![a, b];
    assert(s2.drop_last() =~= s1);
    assert(s1.drop_last() =~= Seq::<u8>::empty());
    assert(hand_sum(Seq::<u8>::empty()) == 0);
    assert(hand_sum(s1) == hand_sum(s1.drop_last()) + s1.last());
    assert(hand_sum(s2) == hand_sum(s2.drop_last()) + s2.last());
}

proof fn lemma_hand_sum_lower(h: Seq<u8>)
    requires
        valid_cards(h),
    ensures
        hand_sum(h) >= h.len(),
    decreases h.len(),
{
    if h.len() > 0 {
        assert(valid_cards(h.drop_last()));
        lemma_hand_sum_lower(h.drop_last());
    }
}

/// The card game, with its own seeded stream of cards.
pub struct BlackJackEnv {
    ready: bool,
    player: Vec<u8>,
    dealer: Vec<u8>,
    player_has_ace: bool,
    dealer_has_ace: bool,
    rng: SmallRng,
    record: Ghost<Seq<(usize, Seq<Transition>)>>,
    failed: Ghost<Option<EnvError>>,
}

impl BlackJackEnv {
    /// Number of actions: hit (0) and stand (1).
    pub const N_ACTIONS: usize = 2;

    /// Number of states: every identifier lies below this.
    pub const N_STATES: usize = 700;

    /// Whether a step may be taken.
    pub closed spec fn is_ready(&self) -> bool {
        self.ready
    }

    /// The player's cards, in the order they were dealt.
    pub closed spec fn player_hand(&self) -> Seq<u8> {
        self.player@
    }

    /// The dealer's cards, in the order they were dealt.
    pub closed spec fn dealer_hand(&self) -> Seq<u8> {
        self.dealer@
    }

    /// The player's score.
    pub open spec fn player_score(&self) -> int {
        score(hand_sum(self.player_hand()), ace_flag(self.player_hand()))
    }

    /// The dealer's score.
    pub open spec fn dealer_score(&self) -> int {
        score(hand_sum(self.dealer_hand()), ace_flag(self.dealer_hand()))
    }

    /// Both hands hold at least two valid cards, within the sums that the
    /// game can reach, and the ace flags match their first two cards.
    pub open spec fn scorable(&self) -> bool {
        &&& self.player_hand().len() >= 2
        &&& self.dealer_hand().len() >= 2
        &&& valid_cards(self.player_hand())
        &&& valid_cards(self.dealer_hand())
        &&& hand_sum(self.player_hand()) <= 31
        &&& hand_sum(self.dealer_hand()) <= 26
        &&& self.flags_ok()
    }

    /// The ace flags match the first two cards of each hand.
    pub closed spec fn flags_ok(&self) -> bool {
        &&& self.player_has_ace == ace_flag(self.player@)
        &&& self.dealer_has_ace == ace_flag(self.dealer@)
    }

    /// A game is seeded with `seed` and deals its first hands at once;
    /// `reset` must come before the first step.
    pub fn new(seed: u64) -> (r: Self)
        ensures
            r.inv(),
            !r.is_ready(),
            r.episodes().len() == 0,
            r.failure() is None,
    {
        let mut env = BlackJackEnv {
            ready: false,
            player: Vec::new(),
            dealer: Vec::new(),
            player_has_ace: false,
            dealer_has_ace: false,
            rng: seeded(seed),
            record: Ghost(Seq::empty()),
            failed: Ghost(None),
        };
        env.initialize_hands();
        env
    }

    fn get_new_card(&mut self) -> (r: u8)
        ensures
            1 <= r <= 10,
            final(self).record == old(self).record,
            final(self).failed == old(self).failed,
            final(self).ready == old(self).ready,
            final(self).player == old(self).player,
            final(self).dealer == old(self).dealer,
            final(self).player_has_ace == old(self).player_has_ace,
            final(self).dealer_has_ace == old(self).dealer_has_ace,
    {
        sample_uniform(&mut self.rng, 1, 11)
    }

    fn initialize_hands(&mut self)
        ensures
            final(self).ready == old(self).ready,
            final(self).record == old(self).record,
            final(self).failed == old(self).failed,
            final(self).player@.len() == 2,
            final(self).dealer@.len() == 2,
            valid_cards(final(self).player@),
            valid_cards(final(self).dealer@),
            hand_sum(final(self).player@) <= 20,
            hand_sum(final(self).dealer@) <= 20,
            final(self).flags_ok(),
    {
        let p0 = self.get_new_card();
        let p1 = self.get_new_card();
        let d0 = self.get_new_card();
        let d1 = self.get_new_card();
        self.player = vec![p0, p1];
        self.dealer = vec![d0, d1];
        self.player_has_ace = p0 == 1 || p1 == 1;
        self.dealer_has_ace = d0 == 1 || d1 == 1;
        proof {
            lemma_hand_sum_two(p0, p1);
            lemma_hand_sum_two(d0, d1);
            assert(self.player@ =~= seq![p0, p1]);
            assert(self.dealer@ =~= seq![d0, d1]);
        }
    }

    fn get_dealer_card(&self) -> (r: u8)
        requires
            self.dealer@.len() > 0,
        ensures
            r == shown(self.dealer@[0]),
    {
        if self.dealer[0] == 1 {
            11
        } else {
            self.dealer[0]
        }
    }

    fn sum_of(hand: &Vec<u8>) -> (r: u8)
        requires
            valid_cards(hand@),
            hand_sum(hand@) <= 31,
        ensures
            r == hand_sum(hand@),
    {
        let mut acc: u8 = 0;
        let mut i: usize = 0;
        while i < hand.len()
            invariant
                valid_cards(hand@),
                hand_sum(hand@) <= 31,
                i <= hand@.len(),
                acc == hand_sum(hand@.take(i as int)),
            decreases hand@.len() - i,
        {
            assert(hand@.take(i as int + 1).drop_last() =~= hand@.take(i as int));
            proof {
                Self::lemma_prefix_sum(hand@, i as int + 1);
            }
            acc = acc + hand[i];
            i = i + 1;
        }
        assert(hand@.take(i as int) =~= hand@);
        acc
    }

    proof fn lemma_prefix_sum(h: Seq<u8>, k: int)
        requires
            valid_cards(h),
            0 <= k <= h.len(),
        ensures
            hand_sum(h.take(k)) <= hand_sum(h),
            hand_sum(h.take(k)) >= 0,
        decreases h.len(),
    {
        if h.len() > 0 {
            if k == h.len() {
                assert(h.take(k) =~= h);
                Self::lemma_prefix_sum(h.drop_last(), k - 1);
                assert(h.drop_last().take(k - 1) =~= h.take(k - 1));
            } else {
                assert(h.drop_last().take(k) =~= h.take(k));
                Self::lemma_prefix_sum(h.drop_last(), k);
            }
        }
    }

    fn compute_player_score(&self) -> (r: u8)
        requires
            self.scorable(),
        ensures
            r == self.player_score(),
            1 <= r <= 31,
    {
        proof {
            lemma_hand_sum_lower(self.player@);
        }
        let sum: u8 = Self::sum_of(&self.player);
        if self.player_has_ace && sum + 10 <= 21 {
            sum + 10
        } else {
            sum
        }
    }

    fn compute_dealer_score(&self) -> (r: u8)
        requires
            self.scorable(),
        ensures
            r == self.dealer_score(),
            1 <= r <= 26,
    {
        proof {
            lemma_hand_sum_lower(self.dealer@);
        }
        let sum: u8 = Self::sum_of(&self.dealer);
        if self.dealer_has_ace && sum + 10 <= 21 {
            sum + 10
        } else {
            sum
        }
    }

    fn advance(&mut self, action: usize) -> (r: Result<(usize, i64, bool), EnvError>)
        requires
            old(self).inv(),
        ensures
            final(self).record == old(self).record,
            final(self).failed == old(self).failed,
            final(self).inv(),
            (r matches Ok((_, _, false))) ==> final(self).fuel() < old(self).fuel(),
            r is Ok ==> old(self).is_ready(),
            !old(self).is_ready() ==> r == Err::<(usize, i64, bool), EnvError>(
                EnvError::EnvNotReady,
            ),
            old(self).is_ready() && action > 1 ==> r == Err::<(usize, i64, bool), EnvError>(
                EnvError::InvalidAction,
            ),
            r is Err ==> final(self).player_hand() == old(self).player_hand()
                && final(self).dealer_hand() == old(self).dealer_hand()
                && final(self).is_ready() == old(self).is_ready(),
            old(self).is_ready() && action == 0 ==> {
                let p = final(self).player_score();
                &&& final(self).dealer_hand() == old(self).dealer_hand()
                &&& final(self).player_hand().drop_last() == old(self).player_hand()
                &&& final(self).player_hand().len() == old(self).player_hand().len() + 1
                &&& r matches Ok((id, reward, done)) && {
                    &&& done == (p > 21)
                    &&& final(self).is_ready() == !done
                    &&& reward == if done {
                        -ONE
                    } else {
                        0
                    }
                    &&& id == if done {
                        observation_id(
                            p,
                            final(self).dealer_score(),
                            ace_flag(final(self).player_hand()),
                        )
                    } else {
                        observation_id(
                            p,
                            shown(final(self).dealer_hand()[0]),
                            ace_flag(final(self).player_hand()),
                        )
                    }
                    &&& id < Self::N_STATES
                }
            },
            old(self).is_ready() && action == 1 ==> {
                let d = final(self).dealer_score();
                &&& final(self).player_hand() == old(self).player_hand()
                &&& old(self).dealer_hand().is_prefix_of(final(self).dealer_hand())
                &&& d >= 17
                &&& forall|k: int|
                    old(self).dealer_hand().len() <= k < final(self).dealer_hand().len()
                        ==> #[trigger] hand_score(final(self).dealer_hand().take(k)) < 17
                &&& !final(self).is_ready()
                &&& r matches Ok((id, reward, done)) && {
                    &&& done
                    &&& reward == outcome(old(self).player_score(), d)
                    &&& (reward == ONE || reward == 0 || reward == -ONE)
                    &&& id == observation_id(
                        old(self).player_score(),
                        d,
                        ace_flag(old(self).player_hand()),
                    )
                    &&& id < Self::N_STATES
                }
            },
    {
        if !self.ready {
            return Err(EnvError::EnvNotReady);
        }
        if action > 1 {
            return Err(EnvError::InvalidAction);
        }
        if action == 0 {
            let card = self.get_new_card();
            proof {
                lemma_hand_sum_push(self.player@, card);
            }
            let ghost before = self.player@;
            self.player.push(card);
            assert(self.player@.drop_last() =~= before);
            assert(self.player@[0] == before[0] && self.player@[1] == before[1]);
            let p_score: u8 = self.compute_player_score();
            if p_score > 21 {
                self.ready = false;
                let obs = BlackJackObservation::new(
                    p_score,
                    self.compute_dealer_score(),
                    self.player_has_ace,
                );
                return Ok((obs.identifier(), -ONE, true));
            }
            let obs = BlackJackObservation::new(
                p_score,
                self.get_dealer_card(),
                self.player_has_ace,
            );
            Ok((obs.identifier(), 0, false))
        } else {
            self.ready = false;
            let ghost start = self.dealer@;
            let mut d_score: u8 = self.compute_dealer_score();
            while d_score < 17
                invariant
                    self.inv(),
                    !self.ready,
                    self.player@ == old(self).player@,
                    self.record == old(self).record,
                    self.failed == old(self).failed,
                    start.is_prefix_of(self.dealer@),
                    d_score == self.dealer_score(),
                    forall|k: int|
                        start.len() <= k < self.dealer@.len() ==> #[trigger] hand_score(
                            self.dealer@.take(k),
                        ) < 17,
                decreases 26 - hand_sum(self.dealer@),
            {
                let card = self.get_new_card();
                proof {
                    lemma_hand_sum_push(self.dealer@, card);
                    assert(hand_sum(self.dealer@) < 17);
                }
                let ghost before = self.dealer@;
                self.dealer.push(card);
                assert(self.dealer@.drop_last() =~= before);
                assert(self.dealer@[0] == before[0] && self.dealer@[1] == before[1]);
                assert(start.is_prefix_of(self.dealer@)) by {
                    assert(forall|i: int| 0 <= i < start.len() ==> self.dealer@[i] == before[i]);
                }
                assert forall|k: int| start.len() <= k < self.dealer@.len() implies #[trigger] hand_score(
                    self.dealer@.take(k),
                ) < 17 by {
                    if k < before.len() {
                        assert(self.dealer@.take(k) =~= before.take(k));
                    } else {
                        assert(self.dealer@.take(k) =~= before);
                    }
                }
                d_score = self.compute_dealer_score();
            }
            let p_score: u8 = self.compute_player_score();
            let obs = BlackJackObservation::new(p_score, d_score, self.player_has_ace);
            if d_score > 21 {
                return Ok((obs.identifier(), ONE, true));
            }
            let reward: i64 = if p_score > d_score {
                ONE
            } else if p_score < d_score {
                -ONE
            } else {
                0
            };
            Ok((obs.identifier(), reward, true))
        }
    }

    /// Records the outcome of a step in the ghost history.
    fn note(&mut self, action: usize, r: Result<(usize, i64, bool), EnvError>) -> (out: Result<
        (usize, i64, bool),
        EnvError,
    >)
        requires
            r is Ok ==> old(self).record@.len() > 0,
        ensures
            out == r,
            final(self).ready == old(self).ready,
            final(self).player == old(self).player,
            final(self).dealer == old(self).dealer,
            final(self).player_has_ace == old(self).player_has_ace,
            final(self).dealer_has_ace == old(self).dealer_has_ace,
            r matches Ok((next, reward, done)) ==> final(self).record@ == extended(
                old(self).record@,
                (action, next, reward, done),
            ) && final(self).failed@ is None,
            r matches Err(e) ==> final(self).record@ == old(self).record@ && final(self).failed@
                == Some(e),
    {
        match r {
            Ok((next, reward, done)) => {
                self.record = Ghost(extended(self.record@, (action, next, reward, done)));
                self.failed = Ghost(None);
            },
            Err(e) => {
                self.failed = Ghost(Some(e));
            },
        }
        r
    }

    /// The dealer's cards, in the order they were dealt.
    pub fn dealer(&self) -> (r: &Vec<u8>)
        ensures
            r@ == self.dealer_hand(),
    {
        &self.dealer
    }

    /// The player's cards, in the order they were dealt.
    pub fn player(&self) -> (r: &Vec<u8>)
        ensures
            r@ == self.player_hand(),
    {
        &self.player
    }
}

impl Default for BlackJackEnv {
    /// A game seeded with 42.
    fn default() -> (r: Self)
        ensures
            r.inv(),
            !r.is_ready(),
            r.episodes().len() == 0,
            r.failure() is None,
    {
        Self::new(42)
    }
}

/// The text of a card: its value in decimal; anything above nine reads 10.
pub open spec fn card_chars(card: u8) -> Seq<char> {
    if card == 1 {
        "1"@
    } else if card == 2 {
        "2"@
    } else if card == 3 {
        "3"@
    } else if card == 4 {
        "4"@
    } else if card == 5 {
        "5"@
    } else if card == 6 {
        "6"@
    } else if card == 7 {
        "7"@
    } else if card == 8 {
        "8"@
    } else if card == 9 {
        "9"@
    } else {
        "10"@
    }
}

/// The text of a hand: each card's text followed by a space.
pub open spec fn cards_chars(h: Seq<u8>) -> Seq<char>
    decreases h.len(),
{
    if h.len() == 0 {
        Seq::empty()
    } else {
        cards_chars(h.drop_last()) + card_chars(h.last()) + " "@
    }
}

/// The verdict shown once a game is over.
pub open spec fn verdict_chars(p_score: int, d_score: int) -> Seq<char> {
    if p_score > d_score {
        "Player wins!"@
    } else if p_score < d_score {
        "Dealer wins!"@
    } else {
        "Tie! Nobody wins!"@
    }
}

fn card_text(card: u8) -> (r: &'static str)
    ensures
        r@ == card_chars(card),
{
    if card == 1 {
        "1"
    } else if card == 2 {
        "2"
    } else if card == 3 {
        "3"
    } else if card == 4 {
        "4"
    } else if card == 5 {
        "5"
    } else if card == 6 {
        "6"
    } else if card == 7 {
        "7"
    } else if card == 8 {
        "8"
    } else if card == 9 {
        "9"
    } else {
        "10"
    }
}

fn append_cards(text: &mut String, cards: &Vec<u8>)
    ensures
        final(text)@ == old(text)@ + cards_chars(cards@),
{
    let mut i: usize = 0;
    while i < cards.len()
        invariant
            i <= cards@.len(),
            text@ == old(text)@ + cards_chars(cards@.take(i as int)),
        decreases cards@.len() - i,
    {
        let ghost prev = text@;
        text.append(card_text(cards[i]));
        text.append(" ");
        let ghost t = cards@.take(i as int + 1);
        assert(t.drop_last() =~= cards@.take(i as int));
        assert(t.last() == cards@[i as int]);
        assert(text@ =~= old(text)@ + cards_chars(t));
        i = i + 1;
    }
    assert(cards@.take(i as int) =~= cards@);
}

impl Env for BlackJackEnv {
    open spec fn inv(&self) -> bool {
        &&& self.scorable()
        &&& self.is_ready() ==> hand_sum(self.player_hand()) <= 21
        &&& self.is_ready() ==> self.episodes().len() > 0
    }

    closed spec fn episodes(&self) -> Seq<(usize, Seq<Transition>)> {
        self.record@
    }

    closed spec fn failure(&self) -> Option<EnvError> {
        self.failed@
    }

    open spec fn fuel(&self) -> nat {
        if self.is_ready() {
            (21 - hand_sum(self.player_hand())) as nat
        } else {
            0
        }
    }

    fn reset(&mut self) -> (r: usize)
        ensures
            final(self).is_ready(),
            final(self).player_hand().len() == 2,
            final(self).dealer_hand().len() == 2,
            r == observation_id(
                final(self).player_score(),
                shown(final(self).dealer_hand()[0]),
                ace_flag(final(self).player_hand()),
            ),
            r < Self::N_STATES,
    {
        self.initialize_hands();
        proof {
            lemma_hand_sum_two(self.player@[0], self.player@[1]);
            assert(self.player@ =~= seq![self.player@[0], self.player@[1]]);
            lemma_hand_sum_two(self.dealer@[0], self.dealer@[1]);
            assert(self.dealer@ =~= seq![self.dealer@[0], self.dealer@[1]]);
        }
        let obs = BlackJackObservation::new(
            self.compute_player_score(),
            self.get_dealer_card(),
            self.player_has_ace,
        );
        self.ready = true;
        let id = obs.identifier();
        self.record = Ghost(self.record@.push((id, Seq::empty())));
        self.failed = Ghost(None);
        id
    }

    fn step(&mut self, action: usize) -> (r: Result<(usize, i64, bool), EnvError>)
        ensures
            !old(self).is_ready() ==> r == Err::<(usize, i64, bool), EnvError>(
                EnvError::EnvNotReady,
            ),
            old(self).is_ready() && action > 1 ==> r == Err::<(usize, i64, bool), EnvError>(
                EnvError::InvalidAction,
            ),
            r is Err ==> final(self).player_hand() == old(self).player_hand()
                && final(self).dealer_hand() == old(self).dealer_hand()
                && final(self).is_ready() == old(self).is_ready(),
            old(self).is_ready() && action == 0 ==> {
                let p = final(self).player_score();
                &&& final(self).dealer_hand() == old(self).dealer_hand()
                &&& final(self).player_hand().drop_last() == old(self).player_hand()
                &&& final(self).player_hand().len() == old(self).player_hand().len() + 1
                &&& r matches Ok((id, reward, done)) && {
                    &&& done == (p > 21)
                    &&& final(self).is_ready() == !done
                    &&& reward == if done {
                        -ONE
                    } else {
                        0
                    }
                    &&& id == if done {
                        observation_id(
                            p,
                            final(self).dealer_score(),
                            ace_flag(final(self).player_hand()),
                        )
                    } else {
                        observation_id(
                            p,
                            shown(final(self).dealer_hand()[0]),
                            ace_flag(final(self).player_hand()),
                        )
                    }
                    &&& id < Self::N_STATES
                }
            },
            old(self).is_ready() && action == 1 ==> {
                let d = final(self).dealer_score();
                &&& final(self).player_hand() == old(self).player_hand()
                &&& old(self).dealer_hand().is_prefix_of(final(self).dealer_hand())
                &&& d >= 17
                &&& forall|k: int|
                    old(self).dealer_hand().len() <= k < final(self).dealer_hand().len()
                        ==> #[trigger] hand_score(final(self).dealer_hand().take(k)) < 17
                &&& !final(self).is_ready()
                &&& r matches Ok((id, reward, done)) && {
                    &&& done
                    &&& reward == outcome(old(self).player_score(), d)
                    &&& (reward == ONE || reward == 0 || reward == -ONE)
                    &&& id == observation_id(
                        old(self).player_score(),
                        d,
                        ace_flag(old(self).player_hand()),
                    )
                    &&& id < Self::N_STATES
                }
            },
    {
        let r = self.advance(action);
        self.note(action, r)
    }

    fn render(&self) -> (r: String)
        ensures
            self.is_ready() ==> r@ == "Dealer: "@ + card_chars(self.dealer_hand()[0])
                + " \nPlayer: "@ + cards_chars(self.player_hand()),
            !self.is_ready() ==> r@ == "Final result is "@ + verdict_chars(
                self.player_score(),
                self.dealer_score(),
            ) + "\nDealer: "@ + cards_chars(self.dealer_hand()) + " \nPlayer: "@ + cards_chars(
                self.player_hand(),
            ),
    {
        let mut result: String;
        if self.ready {
            result = String::from_str("Dealer: ");
            result.append(card_text(self.dealer[0]));
            result.append(" \nPlayer: ");
        } else {
            let p = self.compute_player_score();
            let d = self.compute_dealer_score();
            result = String::from_str("Final result is ");
            if p > d {
                result.append("Player wins!");
            } else if p < d {
                result.append("Dealer wins!");
            } else {
                result.append("Tie! Nobody wins!");
            }
            result.append("\nDealer: ");
            append_cards(&mut result, &self.dealer);
            result.append(" \nPlayer: ");
        }
        append_cards(&mut result, &self.player);
        result
    }
}

} // verus!
