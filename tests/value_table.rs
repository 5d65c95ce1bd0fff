use qlearning::fixed::ONE;
use qlearning::policy::{Policy, TableError};
use qlearning::qlearning::{argmax, mean_of_lengths, mean_of_rewards};

#[test]
fn new_table_is_all_zero() {
    let table = Policy::new(3, 2, ONE as u64 / 2);
    for s in 0..3 {
        assert_eq!(table.get_values(s).unwrap(), vec![0, 0]);
    }
    assert_eq!(table.n_states(), 3);
    assert_eq!(table.n_actions(), 2);
    assert_eq!(table.learning_rate(), 500_000);
}

#[test]
fn update_moves_one_entry_by_rate_times_error() {
    let mut table = Policy::new(3, 2, ONE as u64 / 2);
    let delta = table.update(1, 0, 4 * ONE).unwrap();
    assert_eq!(delta, 2 * ONE);
    assert_eq!(table.get_values(1).unwrap(), vec![2 * ONE, 0]);
    assert_eq!(table.get_values(0).unwrap(), vec![0, 0]);
    assert_eq!(table.get_values(2).unwrap(), vec![0, 0]);
    let delta = table.update(1, 0, -ONE).unwrap();
    assert_eq!(delta, -ONE / 2);
    assert_eq!(table.value(1, 0).unwrap(), 3 * ONE / 2);
}

#[test]
fn update_rounds_toward_zero() {
    let mut table = Policy::new(1, 1, ONE as u64 / 2);
    assert_eq!(table.update(0, 0, -3).unwrap(), -1);
    assert_eq!(table.update(0, 0, 3).unwrap(), 1);
    assert_eq!(table.value(0, 0).unwrap(), 0);
}

#[test]
fn update_saturates_at_the_bounds() {
    let mut table = Policy::new(1, 1, ONE as u64);
    table.update(0, 0, i64::MAX).unwrap();
    let delta = table.update(0, 0, i64::MAX).unwrap();
    assert_eq!(delta, 0);
    assert_eq!(table.value(0, 0).unwrap(), i64::MAX);
}

#[test]
fn reset_restores_zeros() {
    let mut table = Policy::new(2, 2, ONE as u64);
    table.update(0, 1, 7).unwrap();
    table.update(1, 0, -9).unwrap();
    table.reset();
    assert_eq!(table.get_values(0).unwrap(), vec![0, 0]);
    assert_eq!(table.get_values(1).unwrap(), vec![0, 0]);
}

#[test]
fn out_of_range_indices_are_refused() {
    let mut table = Policy::new(2, 3, ONE as u64);
    assert_eq!(table.get_values(2), Err(TableError::StateOutOfRange));
    assert_eq!(table.predict(5), Err(TableError::StateOutOfRange));
    assert_eq!(table.update(2, 0, 1), Err(TableError::StateOutOfRange));
    assert_eq!(table.update(0, 3, 1), Err(TableError::ActionOutOfRange));
    assert_eq!(table.value(0, 3), Err(TableError::ActionOutOfRange));
    assert_eq!(table.get_values(0).unwrap(), vec![0, 0, 0]);
}

#[test]
fn argmax_takes_the_first_maximum() {
    assert_eq!(argmax(&[300_000, 700_000, 700_000, 100_000]), 1);
    assert_eq!(argmax(&[5]), 0);
    assert_eq!(argmax(&[-1, -1, -1]), 0);
    assert_eq!(argmax(&[1, 2, 3, 9]), 3);
}

#[test]
fn means_of_rewards_and_lengths() {
    assert_eq!(mean_of_rewards(&vec![-3, -4]), -3);
    assert_eq!(mean_of_rewards(&vec![3, 4]), 3);
    assert_eq!(mean_of_rewards(&vec![]), 0);
    assert_eq!(mean_of_rewards(&vec![i64::MAX, i64::MAX]), i64::MAX);
    assert_eq!(mean_of_lengths(&vec![1, 2]), 1_500_000);
    assert_eq!(mean_of_lengths(&vec![]), 0);
    assert_eq!(mean_of_lengths(&vec![3, 3, 4]), 3_333_333);
}
