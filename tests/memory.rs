use replay::exp::{Exp, ExpBatch};
use replay::memory::ReplayMemory;

const BATCH_SIZE: usize = 2;

fn create_mock_exp_array() -> [Exp<i32, i32, f32>; BATCH_SIZE] {
    let exp1 = Exp {
        state: 0,
        action: 1,
        reward: 1.0,
        next_state: Some(1),
    };
    let exp2 = Exp {
        state: 1,
        action: 2,
        reward: 0.0,
        next_state: None,
    };
    [exp1, exp2]
}

fn create_mock_exp_vec(n: i32) -> Vec<Exp<i32, i32, f32>> {
    (0..n)
        .map(|i| Exp {
            state: i,
            action: i + 1,
            next_state: Some(i + 1),
            reward: 1.0,
        })
        .collect()
}

#[test]
fn exp_batch_from_iter() {
    let experiences = create_mock_exp_array();
    let batch = ExpBatch::from_iter(Vec::from(experiences), BATCH_SIZE);

    assert_eq!(batch.states, [0, 1], "States constructed correctly");
    assert_eq!(batch.actions, [1, 2], "Actions constructed correctly");
    assert_eq!(batch.rewards, [1.0, 0.0], "Rewards constructed correctly");
    assert_eq!(
        batch.next_states,
        [Some(1), None],
        "Next states constructed correctly"
    );
}

#[test]
fn replay_memory_functional() {
    let experiences = create_mock_exp_vec(4);
    let mut memory = ReplayMemory::new(4, 2);

    assert!(
        memory.sample().is_none(),
        "sample none when too few experiences"
    );
    assert!(
        memory.sample_zipped().is_none(),
        "sample_zipped none when too few experiences"
    );

    for exp in experiences {
        memory.push(exp);
    }

    assert!(
        memory.sample().is_some_and(|b| b.len() == 2),
        "sample works"
    );
    assert!(
        memory.sample_zipped().is_some_and(|b| b.states.len() == 2),
        "sample_zipped works"
    );
}

#[test]
fn from_iter_keeps_rows_together() {
    let records: Vec<Exp<i32, char, f32>> = (0..7)
        .map(|i| Exp {
            state: 10 * i,
            action: (b'a' + i as u8) as char,
            reward: i as f32 * 0.5,
            next_state: if i % 3 == 0 { None } else { Some(10 * i + 1) },
        })
        .rev()
        .collect();
    let batch = ExpBatch::from_iter(records, 7);
    assert_eq!(batch.states, vec![60, 50, 40, 30, 20, 10, 0]);
    assert_eq!(batch.actions, vec!['g', 'f', 'e', 'd', 'c', 'b', 'a']);
    assert_eq!(batch.rewards, vec![3.0, 2.5, 2.0, 1.5, 1.0, 0.5, 0.0]);
    assert_eq!(
        batch.next_states,
        vec![None, Some(51), Some(41), None, Some(21), Some(11), None]
    );
}

#[test]
fn from_iter_of_nothing_is_empty() {
    let batch = ExpBatch::<u8, u8, f32>::from_iter(Vec::new(), 4);
    assert!(batch.states.is_empty());
    assert!(batch.actions.is_empty());
    assert!(batch.rewards.is_empty());
    assert!(batch.next_states.is_empty());
}

#[test]
fn duplicate_copies_every_field() {
    let e = Exp { state: vec![1, 2], action: 3u8, reward: -1.5f32, next_state: Some(vec![4]) };
    let d = e.duplicate();
    assert_eq!(d.state, vec![1, 2]);
    assert_eq!(d.action, 3);
    assert_eq!(d.reward, -1.5);
    assert_eq!(d.next_state, Some(vec![4]));
}

#[test]
fn sample_is_none_until_batch_fits() {
    let mut memory = ReplayMemory::new(5, 3);
    for (n, e) in create_mock_exp_vec(6).into_iter().enumerate() {
        let stored = memory.len();
        assert_eq!(stored, n.min(5));
        assert_eq!(memory.sample().is_some(), stored >= 3);
        memory.push(e);
    }
    assert_eq!(memory.len(), 5);
}

#[test]
fn sample_draws_distinct_stored_records() {
    let mut memory = ReplayMemory::new(6, 6);
    for e in create_mock_exp_vec(6) {
        memory.push(e);
    }
    for _ in 0..20 {
        let batch = memory.sample().expect("memory is full");
        assert_eq!(batch.len(), 6);
        let mut states: Vec<i32> = batch.iter().map(|e| e.state).collect();
        states.sort();
        assert_eq!(states, vec![0, 1, 2, 3, 4, 5]);
        for e in batch {
            assert_eq!(e.action, e.state + 1);
        }
    }
}

#[test]
fn sample_zipped_rows_match_stored_records() {
    let mut memory = ReplayMemory::new(8, 4);
    for e in create_mock_exp_vec(10) {
        memory.push(e);
    }
    for _ in 0..20 {
        let b = memory.sample_zipped().expect("enough records");
        assert_eq!(b.states.len(), 4);
        let mut seen = b.states.clone();
        seen.sort();
        seen.dedup();
        assert_eq!(seen.len(), 4, "no record drawn twice");
        for i in 0..4 {
            assert!(b.states[i] >= 2, "the two oldest records were overwritten");
            assert_eq!(b.actions[i], b.states[i] + 1);
            assert_eq!(b.next_states[i], Some(b.states[i] + 1));
            assert_eq!(b.rewards[i], 1.0);
        }
    }
}

#[test]
fn replay_memory_from_vec_is_full() {
    let memory = ReplayMemory::from(create_mock_exp_vec(3), 3);
    assert_eq!(memory.len(), 3);
    assert!(memory.sample().is_some());
}
