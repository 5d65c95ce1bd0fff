use qlearning::env::blackjack::BlackJackEnv;
use qlearning::env::clifwalking::CliffWalkingEnv;
use qlearning::env::Env;
use qlearning::fixed::ONE;
use qlearning::policy::TableError;
use qlearning::qlearning::{choose_action, should_explore_with, AgentError, Control, QLearning};

fn cliff_agent(seed: u64, control: Control) -> QLearning {
    QLearning::with_control(
        control,
        CliffWalkingEnv::N_STATES,
        CliffWalkingEnv::N_ACTIONS,
        ONE as u64 / 10,
        ONE as u64 * 9 / 10,
        seed,
    )
}

fn snapshot(agent: &QLearning) -> Vec<Vec<i64>> {
    (0..agent.policy.n_states())
        .map(|s| agent.policy.get_values(s).unwrap())
        .collect()
}

#[test]
fn new_agent_starts_exploring_with_empty_table() {
    let agent = QLearning::new(4, 2, ONE as u64, ONE as u64 / 2, 3);
    assert_eq!(agent.epsilon(), ONE as u64);
    assert_eq!(agent.discount_factor(), 500_000);
    assert_eq!(agent.control(), Control::OffPolicy);
    assert_eq!(snapshot(&agent), vec![vec![0, 0]; 4]);
}

#[test]
fn terminal_update_ignores_next_state() {
    let mut agent = QLearning::new(2, 2, ONE as u64, ONE as u64 / 2, 0);
    assert_eq!(agent.update(1, 0, 10 * ONE, false, 1, 0), Ok(10 * ONE));
    assert_eq!(agent.policy.value(1, 0).unwrap(), 10 * ONE);
    assert_eq!(agent.update(0, 0, ONE, true, 1, 0), Ok(ONE));
    assert_eq!(agent.policy.value(0, 0).unwrap(), ONE);
}

#[test]
fn non_terminal_update_discounts_the_greatest_next_value() {
    let mut agent = QLearning::new(2, 2, ONE as u64, ONE as u64 / 2, 0);
    agent.update(1, 1, 10 * ONE, false, 1, 0).unwrap();
    assert_eq!(agent.update(0, 1, ONE, false, 1, 0), Ok(6 * ONE));
    assert_eq!(agent.policy.value(0, 1).unwrap(), 6 * ONE);
}

#[test]
fn on_policy_update_uses_the_next_action() {
    let mut agent = QLearning::with_control(Control::OnPolicy, 2, 2, ONE as u64, ONE as u64 / 2, 0);
    agent.update(1, 1, 10 * ONE, false, 1, 0).unwrap();
    assert_eq!(agent.update(0, 1, ONE, false, 1, 0), Ok(ONE));
    assert_eq!(agent.update(0, 0, ONE, false, 1, 1), Ok(6 * ONE));
}

#[test]
fn update_with_learning_rate_scales_the_change() {
    let mut agent = QLearning::new(2, 2, ONE as u64 / 10, 0, 0);
    assert_eq!(agent.update(0, 0, -ONE, false, 1, 0), Ok(-ONE));
    assert_eq!(agent.policy.value(0, 0).unwrap(), -ONE / 10);
    assert_eq!(agent.update(0, 0, -ONE, false, 1, 0), Ok(-ONE + ONE / 10));
}

#[test]
fn epsilon_decays_once_per_terminal_update() {
    let mut agent = QLearning::new(2, 2, ONE as u64, 0, 0);
    agent.update(0, 0, 0, false, 1, 0).unwrap();
    assert_eq!(agent.epsilon(), 1_000_000);
    agent.update(0, 0, 0, true, 1, 0).unwrap();
    assert_eq!(agent.epsilon(), 900_000);
    agent.update(0, 0, 0, true, 1, 0).unwrap();
    assert_eq!(agent.epsilon(), 810_000);
}

#[test]
fn update_refuses_out_of_range_indices() {
    let mut agent = QLearning::new(2, 2, ONE as u64, 0, 0);
    assert_eq!(agent.update(2, 0, 1, true, 0, 0), Err(TableError::StateOutOfRange));
    assert_eq!(agent.update(0, 0, 1, true, 2, 0), Err(TableError::StateOutOfRange));
    assert_eq!(agent.update(0, 2, 1, true, 0, 0), Err(TableError::ActionOutOfRange));
    assert_eq!(agent.update(0, 0, 1, true, 0, 2), Err(TableError::ActionOutOfRange));
    assert_eq!(agent.epsilon(), ONE as u64);
}

#[test]
fn greedy_choice_breaks_ties_by_first_index() {
    let mut agent = QLearning::new(1, 4, ONE as u64, 0, 0);
    agent.update(0, 0, 300_000, true, 0, 0).unwrap();
    agent.update(0, 1, 700_000, true, 0, 0).unwrap();
    agent.update(0, 2, 700_000, true, 0, 0).unwrap();
    agent.update(0, 3, 100_000, true, 0, 0).unwrap();
    assert_eq!(agent.policy.get_values(0).unwrap(), vec![300_000, 700_000, 700_000, 100_000]);
    assert_eq!(agent.greedy_action(0), Ok(1));
    assert_eq!(agent.greedy_action(1), Err(TableError::StateOutOfRange));
}

#[test]
fn exploration_rule() {
    assert!(!should_explore_with(0, 0));
    assert!(should_explore_with(500_000, 500_000));
    assert!(!should_explore_with(500_000, 500_001));
    assert!(should_explore_with(ONE as u64, 999_999));
}

#[test]
fn exploring_agent_draws_every_action() {
    let mut agent = QLearning::new(1, 4, ONE as u64, 0, 11);
    let mut seen = [false; 4];
    for _ in 0..200 {
        let a = agent.get_action(0).unwrap();
        assert!(a < 4);
        seen[a] = true;
    }
    assert!(seen.iter().all(|x| *x));
    assert_eq!(agent.get_action(1), Err(TableError::StateOutOfRange));
}

#[test]
fn greedy_agent_without_epsilon_takes_the_best_action() {
    let mut agent = QLearning::new(1, 3, ONE as u64, 0, 0);
    agent.update(0, 2, ONE, false, 0, 0).unwrap();
    for _ in 0..40 {
        agent.update(0, 0, -ONE, true, 0, 0).unwrap();
    }
    while agent.epsilon() > 0 {
        agent.update(0, 1, -ONE, true, 0, 0).unwrap();
    }
    for _ in 0..20 {
        assert_eq!(agent.get_action(0), Ok(2));
    }
}

#[test]
fn learn_records_every_episode_and_decays_epsilon() {
    let mut env = CliffWalkingEnv::new(100);
    let mut agent = cliff_agent(1, Control::OffPolicy);
    let results = agent.learn(&mut env, 5, 2, 3).unwrap();
    assert_eq!(results.training_reward.len(), 5);
    assert_eq!(results.training_length.len(), 5);
    assert!(results.training_length.iter().all(|l| *l >= 1 && *l <= 101));
    let total: usize = results.training_length.iter().sum();
    assert_eq!(results.training_error.len(), total);
    assert_eq!(results.mean_evaluation_reward.len(), 3);
    assert_eq!(results.mean_evaluation_length.len(), 3);
    assert_eq!(agent.epsilon(), 590_490);
    agent.reset();
    assert_eq!(agent.epsilon(), ONE as u64);
    assert_eq!(snapshot(&agent), vec![vec![0, 0, 0, 0]; 48]);
}

#[test]
fn learn_from_epsilon_after_three_episodes() {
    let mut env = CliffWalkingEnv::new(50);
    let mut agent = cliff_agent(4, Control::OnPolicy);
    agent.learn(&mut env, 3, 10, 1).unwrap();
    assert_eq!(agent.epsilon(), 729_000);
}

#[test]
fn learning_runs_are_deterministic() {
    let run = |seed: u64| {
        let mut env = CliffWalkingEnv::new(100);
        let mut agent = cliff_agent(seed, Control::OnPolicy);
        let r = agent.learn(&mut env, 30, 10, 2).unwrap();
        (r.training_reward, r.training_length, r.training_error, snapshot(&agent))
    };
    assert_eq!(run(7), run(7));
    let card_run = |seed: u64| {
        let mut env = BlackJackEnv::new(seed);
        let mut agent = QLearning::new(
            BlackJackEnv::N_STATES,
            BlackJackEnv::N_ACTIONS,
            ONE as u64 / 10,
            ONE as u64 * 95 / 100,
            seed,
        );
        let r = agent.learn(&mut env, 200, 50, 5).unwrap();
        (r.training_reward, r.training_length, r.mean_evaluation_reward)
    };
    assert_eq!(card_run(3), card_run(3));
}

#[test]
fn evaluation_leaves_the_table_alone() {
    let mut env = CliffWalkingEnv::new(100);
    let mut agent = cliff_agent(2, Control::OffPolicy);
    agent.learn(&mut env, 20, 5, 1).unwrap();
    let before = snapshot(&agent);
    let eps = agent.epsilon();
    for _ in 0..3 {
        let (rewards, lengths) = agent.evaluate(&mut env, 4).unwrap();
        assert_eq!(rewards.len(), 4);
        assert_eq!(lengths.len(), 4);
        let (rewards, lengths) = agent.evaluate_greedy(&mut env, 2).unwrap();
        assert_eq!(rewards.len(), 2);
        assert_eq!(lengths.len(), 2);
    }
    assert_eq!(snapshot(&agent), before);
    assert_eq!(agent.epsilon(), eps);
}

#[test]
fn greedy_evaluation_on_fresh_table_walks_left_until_cut_off() {
    let mut env = CliffWalkingEnv::new(10);
    let mut agent = cliff_agent(0, Control::OffPolicy);
    let (rewards, lengths) = agent.evaluate_greedy(&mut env, 2).unwrap();
    assert_eq!(lengths, vec![11, 11]);
    assert_eq!(rewards, vec![-11 * ONE, -11 * ONE]);
}

#[test]
fn too_small_table_is_reported() {
    let mut env = CliffWalkingEnv::new(10);
    let mut agent = QLearning::new(10, 4, ONE as u64, 0, 0);
    assert!(matches!(
        agent.learn(&mut env, 1, 1, 1),
        Err(AgentError::Table(TableError::StateOutOfRange))
    ));
}

#[test]
fn too_many_actions_are_reported() {
    let mut env = BlackJackEnv::new(0);
    let mut agent = QLearning::new(BlackJackEnv::N_STATES, 5, ONE as u64, 0, 0);
    let mut failed = false;
    for _ in 0..50 {
        if let Err(e) = agent.evaluate(&mut env, 1) {
            assert_eq!(e, AgentError::Env(qlearning::env::EnvError::InvalidAction));
            failed = true;
            break;
        }
    }
    assert!(failed);
    let _ = env.reset();
}

#[test]
fn choose_action_follows_the_coin() {
    let values = [300_000, 700_000, 700_000, 100_000];
    assert_eq!(choose_action(&values, 500_000, 400_000, 3), 3);
    assert_eq!(choose_action(&values, 500_000, 500_000, 2), 2);
    assert_eq!(choose_action(&values, 500_000, 600_000, 3), 1);
    assert_eq!(choose_action(&values, 0, 0, 3), 1);
}

#[test]
fn no_draw_is_taken_while_epsilon_is_zero() {
    let make = || {
        let mut agent = QLearning::new(1, 4, ONE as u64, 0, 21);
        while agent.epsilon() > 0 {
            agent.update(0, 0, 0, true, 0, 0).unwrap();
        }
        agent
    };
    let mut a = make();
    let mut b = make();
    for _ in 0..10 {
        assert_eq!(a.get_action(0), Ok(0));
    }
    let mut env = CliffWalkingEnv::new(5);
    let mut small = QLearning::new(CliffWalkingEnv::N_STATES, 4, ONE as u64, 0, 21);
    while small.epsilon() > 0 {
        small.update(0, 0, 0, true, 0, 0).unwrap();
    }
    small.evaluate(&mut env, 3).unwrap();
    a.reset();
    b.reset();
    let xs: Vec<usize> = (0..30).map(|_| a.get_action(0).unwrap()).collect();
    let ys: Vec<usize> = (0..30).map(|_| b.get_action(0).unwrap()).collect();
    assert_eq!(xs, ys);
}

#[test]
fn empty_runs_succeed() {
    let mut env = CliffWalkingEnv::new(10);
    let mut agent = cliff_agent(0, Control::OffPolicy);
    let results = agent.learn(&mut env, 0, 1, 1).unwrap();
    assert!(results.training_reward.is_empty());
    assert!(results.training_length.is_empty());
    assert!(results.training_error.is_empty());
    assert!(results.mean_evaluation_reward.is_empty());
    assert!(results.mean_evaluation_length.is_empty());
    assert_eq!(agent.epsilon(), ONE as u64);
    assert_eq!(agent.evaluate(&mut env, 0), Ok((vec![], vec![])));
    assert_eq!(agent.evaluate_greedy(&mut env, 0), Ok((vec![], vec![])));
}

#[test]
fn training_totals_match_lengths_on_the_grid() {
    let mut env = CliffWalkingEnv::new(100);
    let mut agent = cliff_agent(5, Control::OffPolicy);
    let r = agent.learn(&mut env, 10, 5, 1).unwrap();
    for (reward, length) in r.training_reward.iter().zip(r.training_length.iter()) {
        let l = *length as i64;
        assert!(*reward == -l * ONE || *reward == -(l - 1) * ONE - 100 * ONE);
    }
}

#[test]
fn learn_records_the_means_of_its_greedy_evaluations() {
    let mut env = CliffWalkingEnv::new(20);
    let mut agent = cliff_agent(8, Control::OffPolicy);
    let r = agent.learn(&mut env, 1, 1, 3).unwrap();
    let (rewards, lengths) = agent.evaluate_greedy(&mut env, 3).unwrap();
    assert_eq!(r.mean_evaluation_reward, vec![qlearning::qlearning::mean_of_rewards(&rewards)]);
    assert_eq!(r.mean_evaluation_length, vec![qlearning::qlearning::mean_of_lengths(&lengths)]);
}

#[test]
fn step_error_is_handed_back() {
    let mut env = CliffWalkingEnv::new(10);
    let mut agent = QLearning::new(CliffWalkingEnv::N_STATES, 6, ONE as u64, 0, 0);
    for _ in 0..40 {
        agent.update(36, 0, -ONE, true, 36, 0).unwrap();
        agent.update(36, 1, -ONE, true, 36, 0).unwrap();
        agent.update(36, 2, -ONE, true, 36, 0).unwrap();
        agent.update(36, 3, -ONE, true, 36, 0).unwrap();
    }
    assert_eq!(
        agent.evaluate_greedy(&mut env, 1),
        Err(AgentError::Env(qlearning::env::EnvError::InvalidAction))
    );
}
