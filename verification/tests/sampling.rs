use std::collections::HashSet;

use learning::sampling::{
    choose_from_orders, exercises_at_level, levels_in_order, select_sample, Exercise, SampleState,
};

fn exercise(level: &str, task: &str) -> Exercise {
    Exercise {
        level: level.to_string(),
        task: task.to_string(),
        hint: String::new(),
    }
}

fn exercises() -> Vec<Exercise> {
    vec![
        exercise("data-structures", "linked list"),
        exercise("data-structures", "hash table"),
        exercise("algorithms", "binary search"),
        exercise("algorithms", "breadth-first search"),
    ]
}

#[test]
fn samples_do_not_repeat_until_the_cycle_is_complete() {
    let exercises = exercises();
    let mut state = SampleState::default();

    let first = select_sample(&exercises, 2, &mut state);
    let second = select_sample(&exercises, 2, &mut state);
    let first_tasks: HashSet<&str> = first.iter().map(|ex| ex.task.as_str()).collect();
    let second_tasks: HashSet<&str> = second.iter().map(|ex| ex.task.as_str()).collect();

    assert!(first_tasks.is_disjoint(&second_tasks));
    assert_eq!(state.reviewed_tasks.len(), exercises.len());

    let third = select_sample(&exercises, 2, &mut state);
    assert_eq!(third.len(), 2);
    assert_eq!(state.reviewed_tasks.len(), 2);
}

#[test]
fn sample_includes_each_level_when_space_allows() {
    let exercises = exercises();
    let mut state = SampleState::default();

    let sample = select_sample(&exercises, 2, &mut state);
    let levels: HashSet<&str> = sample.iter().map(|ex| ex.level.as_str()).collect();

    assert_eq!(levels, HashSet::from(["data-structures", "algorithms"]));
}

#[test]
fn final_sample_uses_only_the_unseen_remainder() {
    let exercises = exercises();
    let mut state = SampleState::default();

    let _ = select_sample(&exercises, 3, &mut state);
    let final_sample = select_sample(&exercises, 3, &mut state);

    assert_eq!(final_sample.len(), 1);
    assert_eq!(state.reviewed_tasks.len(), exercises.len());
}

#[test]
fn history_is_pruned_of_removed_tasks_and_extended_by_the_sample() {
    let exercises = exercises();
    let mut state = SampleState {
        reviewed_tasks: vec!["gone".to_string(), "linked list".to_string()],
    };
    let sample = select_sample(&exercises, 1, &mut state);
    assert_eq!(sample.len(), 1);
    assert_ne!(sample[0].task, "linked list");
    assert_eq!(state.reviewed_tasks.len(), 2);
    assert_eq!(state.reviewed_tasks[0], "linked list");
    assert_eq!(state.reviewed_tasks[1], sample[0].task);
}

#[test]
fn a_fully_reviewed_topic_starts_a_new_cycle() {
    let exercises = exercises();
    let mut state = SampleState {
        reviewed_tasks: exercises.iter().map(|e| e.task.clone()).collect(),
    };
    let sample = select_sample(&exercises, 4, &mut state);
    assert_eq!(sample.len(), 4);
    let tasks: HashSet<&str> = sample.iter().map(|ex| ex.task.as_str()).collect();
    assert_eq!(tasks.len(), 4);
    let reviewed: Vec<&str> = state.reviewed_tasks.iter().map(|t| t.as_str()).collect();
    let shown: Vec<&str> = sample.iter().map(|ex| ex.task.as_str()).collect();
    assert_eq!(reviewed, shown);
}

#[test]
fn sample_of_one_level_per_pick_when_levels_outnumber_the_count() {
    let exercises = vec![
        exercise("a", "1"),
        exercise("a", "2"),
        exercise("b", "3"),
        exercise("c", "4"),
    ];
    for _ in 0..20 {
        let mut state = SampleState::default();
        let sample = select_sample(&exercises, 2, &mut state);
        assert_eq!(sample.len(), 2);
        assert_ne!(sample[0].level, sample[1].level);
    }
}

#[test]
fn empty_topic_and_zero_count_give_empty_samples() {
    let mut state = SampleState::default();
    assert!(select_sample(&[], 3, &mut state).is_empty());
    assert!(state.reviewed_tasks.is_empty());
    let exercises = exercises();
    let sample = select_sample(&exercises, 0, &mut state);
    assert!(sample.is_empty());
    assert!(state.reviewed_tasks.is_empty());
}

#[test]
fn levels_listed_in_order_of_first_appearance() {
    let exercises = vec![
        exercise("b", "1"),
        exercise("a", "2"),
        exercise("b", "3"),
        exercise("c", "4"),
    ];
    assert_eq!(levels_in_order(&exercises), vec!["b", "a", "c"]);
}

#[test]
fn exercises_filtered_by_level_keep_their_order() {
    let exercises = exercises();
    let picked = exercises_at_level(&exercises, &"algorithms".to_string());
    let tasks: Vec<&str> = picked.iter().map(|e| e.task.as_str()).collect();
    assert_eq!(tasks, vec!["binary search", "breadth-first search"]);
}

#[test]
fn the_draw_after_the_remainder_starts_a_new_cycle() {
    let exercises = exercises();
    let mut state = SampleState::default();
    let _ = select_sample(&exercises, 3, &mut state);
    let rest = select_sample(&exercises, 3, &mut state);
    assert_eq!(rest.len(), 1);
    let next = select_sample(&exercises, 3, &mut state);
    assert_eq!(next.len(), 3);
    let reviewed: Vec<&str> = state.reviewed_tasks.iter().map(|t| t.as_str()).collect();
    let shown: Vec<&str> = next.iter().map(|ex| ex.task.as_str()).collect();
    assert_eq!(reviewed, shown);
}

#[test]
fn a_full_cycle_draws_every_task_exactly_once() {
    let exercises = vec![
        exercise("a", "1"),
        exercise("b", "2"),
        exercise("a", "3"),
        exercise("c", "4"),
        exercise("b", "5"),
    ];
    let mut state = SampleState::default();
    let mut seen: Vec<String> = Vec::new();
    let sizes: Vec<usize> = (0..3)
        .map(|_| {
            let s = select_sample(&exercises, 2, &mut state);
            seen.extend(s.iter().map(|e| e.task.clone()));
            s.len()
        })
        .collect();
    assert_eq!(sizes, vec![2, 2, 1]);
    let mut sorted = seen.clone();
    sorted.sort();
    assert_eq!(sorted, vec!["1", "2", "3", "4", "5"]);
    assert_eq!(state.reviewed_tasks, seen);
}

#[test]
fn choice_from_given_orders_is_determined() {
    let by_levels = vec![exercise("a", "1"), exercise("a", "2"), exercise("b", "3"), exercise("c", "4")];
    // levels a, b, c visited as c then a; c's exercise is 3, then a's first is 0
    assert_eq!(choose_from_orders(&by_levels, 2, vec![0, 1, 2, 3], &vec![2, 0, 1], &vec![1, 0]), vec![0, 3]);

    let two_levels = vec![exercise("a", "1"), exercise("a", "2"), exercise("b", "3"), exercise("a", "4")];
    // levels a, b visited as b then a; then the front of what is left
    assert_eq!(choose_from_orders(&two_levels, 3, vec![3, 1, 2, 0], &vec![1, 0], &vec![0, 1, 2]), vec![2, 3, 0]);
    assert_eq!(choose_from_orders(&two_levels, 3, vec![3, 1, 2, 0], &vec![1, 0], &vec![2, 0, 1]), vec![0, 2, 3]);

    // a single pick takes the front of the unpicked positions
    assert_eq!(choose_from_orders(&two_levels, 1, vec![2, 0, 1], &vec![], &vec![0]), vec![2]);
    assert_eq!(choose_from_orders(&two_levels, 0, vec![2, 0, 1], &vec![], &vec![]), Vec::<usize>::new());
}
