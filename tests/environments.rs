use qlearning::env::blackjack::{BlackJackEnv, BlackJackObservation};
use qlearning::env::clifwalking::{CliffWalkingAction, CliffWalkingEnv};
use qlearning::env::{Env, EnvError};
use qlearning::fixed::ONE;

fn score(cards: &[u8]) -> u8 {
    let sum: u8 = cards.iter().sum();
    if (cards[0] == 1 || cards[1] == 1) && sum + 10 <= 21 {
        sum + 10
    } else {
        sum
    }
}

#[test]
fn cliff_right_from_start_falls() {
    let mut env = CliffWalkingEnv::new(100);
    assert_eq!(env.reset(), 36);
    let right = CliffWalkingAction::RIGHT.index();
    assert_eq!(env.step(right), Ok((37, -100 * ONE, true)));
    assert_eq!(env.step(right), Err(EnvError::EnvNotReady));
}

#[test]
fn cliff_up_from_start_moves_up() {
    let mut env = CliffWalkingEnv::new(100);
    assert_eq!(env.reset(), 36);
    assert_eq!(env.step(CliffWalkingAction::UP.index()), Ok((24, -ONE, false)));
}

#[test]
fn cliff_walk_along_the_edge_reaches_the_goal() {
    let mut env = CliffWalkingEnv::new(100);
    env.reset();
    assert_eq!(env.step(3), Ok((24, -ONE, false)));
    for col in 1..12 {
        assert_eq!(env.step(2), Ok((24 + col, -ONE, false)));
    }
    assert_eq!(env.step(2), Ok((35, -ONE, false)));
    assert_eq!(env.step(1), Ok((47, -ONE, true)));
}

#[test]
fn cliff_moves_off_the_grid_stay_in_place() {
    let mut env = CliffWalkingEnv::new(100);
    env.reset();
    assert_eq!(env.step(CliffWalkingAction::LEFT.index()), Ok((36, -ONE, false)));
    assert_eq!(env.step(CliffWalkingAction::DOWN.index()), Ok((36, -ONE, false)));
}

#[test]
fn cliff_refuses_steps_before_reset_and_bad_actions() {
    let mut env = CliffWalkingEnv::new(100);
    assert_eq!(env.step(0), Err(EnvError::EnvNotReady));
    env.reset();
    assert_eq!(env.step(4), Err(EnvError::InvalidAction));
}

#[test]
fn cliff_episode_is_cut_off_after_max_steps() {
    let mut env = CliffWalkingEnv::new(2);
    env.reset();
    assert_eq!(env.step(0), Ok((36, -ONE, false)));
    assert_eq!(env.step(0), Ok((36, -ONE, false)));
    assert_eq!(env.step(0), Ok((0, -ONE, true)));
    assert_eq!(env.step(0), Err(EnvError::EnvNotReady));
}

#[test]
fn cliff_render_marks_the_player() {
    let mut env = CliffWalkingEnv::new(100);
    env.reset();
    assert_eq!(env.render(), "____________\n____________\n____________\n@!!!!!!!!!!_");
    env.step(3).unwrap();
    assert_eq!(env.render(), "____________\n____________\n@___________\n_!!!!!!!!!!_");
}

#[test]
fn cliff_action_indices() {
    assert_eq!(CliffWalkingAction::LEFT.index(), 0);
    assert_eq!(CliffWalkingAction::DOWN.index(), 1);
    assert_eq!(CliffWalkingAction::RIGHT.index(), 2);
    assert_eq!(CliffWalkingAction::UP.index(), 3);
}

#[test]
fn observation_identifier() {
    let obs = BlackJackObservation::new(12, 10, true);
    assert_eq!(obs.p_score, 12);
    assert_eq!(obs.d_score, 10);
    assert!(obs.p_ace);
    assert_eq!(obs.identifier(), 11 + 162 + 200);
    assert_eq!(BlackJackObservation::new(1, 1, false).identifier(), 0);
    assert_eq!(BlackJackObservation::new(21, 11, false).identifier(), 200);
}

#[test]
fn card_game_stand_resolves_the_dealer() {
    for seed in 0..50u64 {
        let mut env = BlackJackEnv::new(seed);
        let state = env.reset();
        assert!(state < BlackJackEnv::N_STATES);
        let player = env.player().clone();
        let (next, reward, done) = env.step(1).unwrap();
        assert!(done);
        assert!(reward == ONE || reward == 0 || reward == -ONE);
        assert!(next < BlackJackEnv::N_STATES);
        let dealer = env.dealer().clone();
        let d = score(&dealer);
        let p = score(&player);
        assert!(d >= 17);
        let expected = if d > 21 || p > d {
            ONE
        } else if p < d {
            -ONE
        } else {
            0
        };
        assert_eq!(reward, expected);
        assert_eq!(env.step(1), Err(EnvError::EnvNotReady));
    }
}

#[test]
fn card_game_is_deterministic_for_a_seed() {
    let play = |seed: u64| {
        let mut env = BlackJackEnv::new(seed);
        env.reset();
        let r = env.step(1).unwrap();
        (r, env.dealer().clone(), env.player().clone())
    };
    assert_eq!(play(42), play(42));
}

#[test]
fn card_game_hit_until_bust() {
    let mut env = BlackJackEnv::new(5);
    env.reset();
    let mut steps = 0;
    loop {
        let (state, reward, done) = env.step(0).unwrap();
        steps += 1;
        assert!(state < BlackJackEnv::N_STATES);
        let p = score(env.player());
        if done {
            assert!(p > 21);
            assert_eq!(reward, -ONE);
            break;
        }
        assert!(p <= 21);
        assert_eq!(reward, 0);
        assert!(steps < 25);
    }
}

#[test]
fn card_game_cards_vary_and_stay_in_range() {
    let mut env = BlackJackEnv::new(9);
    let mut seen = [false; 11];
    for _ in 0..100 {
        env.reset();
        for c in env.player().iter().chain(env.dealer().iter()) {
            assert!((1..=10).contains(c));
            seen[*c as usize] = true;
        }
    }
    assert!(seen[1..].iter().all(|x| *x));
}

#[test]
fn card_game_refuses_bad_steps() {
    let mut env = BlackJackEnv::new(1);
    assert_eq!(env.step(0), Err(EnvError::EnvNotReady));
    env.reset();
    assert_eq!(env.step(2), Err(EnvError::InvalidAction));
}

#[test]
fn card_game_render() {
    let mut env = BlackJackEnv::new(1);
    env.reset();
    assert!(env.render().starts_with("Dealer: "));
    env.step(1).unwrap();
    assert!(env.render().starts_with("Final result is "));
}

#[test]
fn card_game_default_matches_seed_42() {
    let mut a = BlackJackEnv::default();
    let mut b = BlackJackEnv::new(42);
    assert_eq!(a.reset(), b.reset());
    assert_eq!(a.player(), b.player());
    assert_eq!(a.dealer(), b.dealer());
}

#[test]
fn card_game_dealer_stops_at_first_seventeen() {
    for seed in 0..50u64 {
        let mut env = BlackJackEnv::new(seed);
        env.reset();
        env.step(1).unwrap();
        let dealer = env.dealer().clone();
        for k in 2..dealer.len() {
            assert!(score(&dealer[..k]) < 17);
        }
        assert!(score(&dealer) >= 17);
    }
}

#[test]
fn card_game_render_text() {
    let mut env = BlackJackEnv::new(3);
    env.reset();
    let text = |cards: &[u8]| cards.iter().map(|c| format!("{} ", c)).collect::<String>();
    let expected = format!("Dealer: {} \nPlayer: {}", env.dealer()[0], text(env.player()));
    assert_eq!(env.render(), expected);
    env.step(1).unwrap();
    let p = score(env.player());
    let d = score(env.dealer());
    let verdict = if p > d {
        "Player wins!"
    } else if p < d {
        "Dealer wins!"
    } else {
        "Tie! Nobody wins!"
    };
    let expected = format!(
        "Final result is {}\nDealer: {} \nPlayer: {}",
        verdict,
        text(env.dealer()),
        text(env.player())
    );
    assert_eq!(env.render(), expected);
}
