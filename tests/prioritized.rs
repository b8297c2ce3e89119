use replay::exp::Exp;
use replay::prioritized::{PrioritizedReplayMemory, PRIORITY_FLOOR};

// Priorities are integers; with one unit standing for 1e-5, the floor is 1e-5.

fn create_mock_exp_vec(n: i32) -> Vec<Exp<i32, i32, f32>> {
    (0..n)
        .map(|i| Exp {
            state: i,
            action: i + 1,
            next_state: Some(i + 1),
            reward: 1.0,
        })
        .collect()
}

#[test]
fn prioritized_replay_memory_functional() {
    let experiences = create_mock_exp_vec(8);
    let mut memory = PrioritizedReplayMemory::new(8, 4);

    assert!(
        memory.sample().is_none(),
        "sample none when too few experiences"
    );
    assert!(
        memory.sample_zipped().is_none(),
        "sample_zipped none when too few experiences"
    );

    for exp in experiences {
        memory.push(exp);
    }

    assert_eq!(
        memory.priorities().max(),
        1,
        "max priority is minimum value before updates"
    );
    assert_eq!(
        memory.priorities().sum(),
        8,
        "sum is correct after pushing elements"
    );

    let (batch, weights, indices) = memory
        .sample()
        .expect("sample some when enough experiences");

    assert_eq!(batch.len(), 4, "batch length correct");
    assert_eq!(weights.len(), 4, "weights length correct");
    assert_eq!(indices.len(), 4, "indices length correct");

    memory.update_priorities(&indices, &[10_000, 20_000, 30_000, 40_000]);

    assert_eq!(
        memory.priorities().max(),
        40_000,
        "max priority is correct after updates"
    );
    assert!(
        memory.priorities().sum() > 40_000,
        "sum is correct after updates"
    );
}

#[test]
fn seeding_gives_every_push_the_floor() {
    let mut memory = PrioritizedReplayMemory::new(8, 8);
    for (n, e) in create_mock_exp_vec(8).into_iter().enumerate() {
        memory.push(e);
        assert_eq!(memory.priorities().sum(), (n as u128 + 1) * PRIORITY_FLOOR as u128);
    }
    for i in 0..8 {
        assert_eq!(memory.priorities().get(i), PRIORITY_FLOOR);
    }
}

#[test]
fn push_uses_largest_recorded_priority() {
    let mut memory = PrioritizedReplayMemory::new(4, 1);
    for e in create_mock_exp_vec(2) {
        memory.push(e);
    }
    memory.update_priorities(&[0, 1], &[50, 7]);
    memory.push(Exp { state: 9, action: 9, reward: 0.0f32, next_state: None });
    assert_eq!(memory.priorities().get(2), 50);
    assert_eq!(memory.priorities().sum(), 107);
    assert_eq!(memory.len(), 3);
}

#[test]
fn update_raises_sum_and_max() {
    let mut memory = PrioritizedReplayMemory::new(8, 4);
    for e in create_mock_exp_vec(8) {
        memory.push(e);
    }
    let before = memory.priorities().sum();
    memory.update_priorities(&[5, 2, 5, 7], &[3, 4, 6, 2]);
    assert_eq!(memory.priorities().max(), 6);
    assert_eq!(memory.priorities().get(5), 6, "the later write to a slot wins");
    assert!(memory.priorities().sum() > before);
    assert_eq!(memory.priorities().sum(), 4 + 6 + 2 + 5);
}

#[test]
fn sample_only_draws_positive_priorities() {
    let mut memory = PrioritizedReplayMemory::new(4, 3);
    for e in create_mock_exp_vec(4) {
        memory.push(e);
    }
    memory.update_priorities(&[1, 2, 3], &[0, 0, 0]);
    for _ in 0..20 {
        let (batch, prios, indices) = memory.sample().expect("slot 0 has priority");
        assert_eq!(indices, vec![0, 0, 0]);
        assert_eq!(prios, vec![1, 1, 1]);
        for e in batch {
            assert_eq!(e.state, 0);
        }
    }
}

#[test]
fn sample_is_none_when_every_priority_is_zero() {
    let mut memory = PrioritizedReplayMemory::new(2, 2);
    for e in create_mock_exp_vec(2) {
        memory.push(e);
    }
    memory.update_priorities(&[0, 1], &[0, 0]);
    assert!(memory.sample().is_none());
    assert!(memory.sample_zipped().is_none());
}

#[test]
fn locate_follows_the_priorities() {
    let mut memory = PrioritizedReplayMemory::new(4, 1);
    for e in create_mock_exp_vec(3) {
        memory.push(e);
    }
    memory.update_priorities(&[0, 1, 2], &[2, 0, 5]);
    assert_eq!(memory.locate(1), (0, 2));
    assert_eq!(memory.locate(2), (0, 2));
    assert_eq!(memory.locate(3), (2, 5));
    assert_eq!(memory.locate(7), (2, 5));
    // Past the total the descent ends on an empty leaf, clamped to the last stored slot.
    assert_eq!(memory.locate(8), (2, 5));
}

#[test]
fn sample_zipped_columns_match_drawn_slots() {
    let mut memory = PrioritizedReplayMemory::new(8, 5);
    for e in create_mock_exp_vec(8) {
        memory.push(e);
    }
    memory.update_priorities(&[0, 1, 2, 3], &[9, 9, 9, 9]);
    for _ in 0..10 {
        let (b, prios, indices) = memory.sample_zipped().expect("enough records");
        assert_eq!(b.states.len(), 5);
        for k in 0..5 {
            assert_eq!(b.states[k], indices[k] as i32);
            assert_eq!(b.actions[k], indices[k] as i32 + 1);
            assert_eq!(prios[k], if indices[k] < 4 { 9 } else { 1 });
        }
    }
}
