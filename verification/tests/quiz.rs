use learning::quiz::{
    find_topic, is_quit, is_yes, quiz_next, quiz_start, sample_request, shuffle_exercises,
    sort_topic_names, str_le, task_lines, topic_choice, topic_start, ArgsError, QuizStep,
    TopicStart, DEFAULT_SAMPLE_SIZE,
};
use learning::sampling::Exercise;

fn args(words: &[&str]) -> Vec<String> {
    words.iter().map(|w| w.to_string()).collect()
}

#[test]
fn names_sort_as_strings_compare() {
    let names = args(&["vim", "technical-interview", "Zeta", "alpha", "ä", "b"]);
    let mut expected = names.clone();
    expected.sort();
    assert_eq!(sort_topic_names(names), expected);
    assert_eq!(sort_topic_names(Vec::new()), Vec::<String>::new());
}

#[test]
fn string_order_matches_std() {
    for (a, b) in [("a", "b"), ("b", "a"), ("ab", "a"), ("a", "ab"), ("", ""), ("é", "z"), ("Z", "a")] {
        assert_eq!(str_le(a, b), a <= b, "{} {}", a, b);
    }
}

#[test]
fn topics_are_found_by_exact_name() {
    let names = args(&["a", "vim", "vim"]);
    assert_eq!(find_topic(&names, &"vim".to_string()), Some(1));
    assert_eq!(find_topic(&names, &"Vim".to_string()), None);
}

#[test]
fn sample_option_is_read_from_the_command_line() {
    assert!(matches!(sample_request(&args(&["quiz"])), Ok(None)));
    assert!(matches!(sample_request(&args(&["quiz", "vim"])), Ok(None)));
    assert!(matches!(
        sample_request(&args(&["quiz", "vim", "--sample"])),
        Ok(Some(n)) if n == DEFAULT_SAMPLE_SIZE
    ));
    assert!(matches!(sample_request(&args(&["quiz", "vim", "--sample", "8"])), Ok(Some(8))));
    assert!(matches!(
        sample_request(&args(&["quiz", "vim", "--sample", "0"])),
        Err(ArgsError::InvalidSampleSize)
    ));
    assert!(matches!(
        sample_request(&args(&["quiz", "vim", "--sample", "x", "y"])),
        Err(ArgsError::InvalidSampleSize)
    ));
    assert!(matches!(
        sample_request(&args(&["quiz", "vim", "--sample", "3", "y"])),
        Err(ArgsError::TooManyArguments)
    ));
    match sample_request(&args(&["quiz", "vim", "--all"])) {
        Err(ArgsError::UnknownOption(o)) => assert_eq!(o, "--all"),
        _ => panic!("expected an unknown option"),
    }
}

#[test]
fn topic_selection_starts_by_count() {
    assert_eq!(topic_start(0), TopicStart::NoTopics);
    assert_eq!(topic_start(1), TopicStart::Only);
    assert_eq!(topic_start(5), TopicStart::Ask);
}

#[test]
fn topic_choice_reads_a_number_in_range() {
    assert_eq!(topic_choice(&"".to_string(), 3), Some(0));
    assert_eq!(topic_choice(&"2".to_string(), 3), Some(1));
    assert_eq!(topic_choice(&"3".to_string(), 3), Some(2));
    assert_eq!(topic_choice(&"4".to_string(), 3), None);
    assert_eq!(topic_choice(&"0".to_string(), 3), None);
    assert_eq!(topic_choice(&"two".to_string(), 3), None);
}

#[test]
fn yes_and_quit_replies() {
    assert!(is_yes(&"y".to_string()));
    assert!(!is_yes(&"yes".to_string()));
    assert!(is_quit(&"q".to_string()));
    assert!(!is_quit(&"".to_string()));
}

#[test]
fn the_quiz_alternates_task_and_hint_until_done_or_quit() {
    let go = "".to_string();
    let quit = "q".to_string();
    assert_eq!(quiz_start(0), QuizStep::Finished);
    let mut step = quiz_start(2);
    assert_eq!(step, QuizStep::ShowTask(0));
    step = quiz_next(step, &go, 2);
    assert_eq!(step, QuizStep::ShowHint(0));
    step = quiz_next(step, &go, 2);
    assert_eq!(step, QuizStep::ShowTask(1));
    step = quiz_next(step, &go, 2);
    assert_eq!(step, QuizStep::ShowHint(1));
    step = quiz_next(step, &go, 2);
    assert_eq!(step, QuizStep::Finished);
    assert_eq!(quiz_next(QuizStep::ShowTask(1), &quit, 2), QuizStep::Quit(1));
    assert_eq!(quiz_next(QuizStep::ShowHint(0), &quit, 2), QuizStep::Quit(0));
}

#[test]
fn tasks_wrap_at_the_task_width() {
    let task = "word ".repeat(20);
    let lines = task_lines(&task);
    assert!(lines.iter().all(|l| l.len() <= 58));
    assert_eq!(lines.join(" "), task.trim());
}

#[test]
fn shuffling_keeps_the_exercises_and_changes_the_order() {
    let original: Vec<Exercise> = (0..8)
        .map(|i| Exercise { level: "l".to_string(), task: i.to_string(), hint: String::new() })
        .collect();
    let mut changed = false;
    for _ in 0..50 {
        let mut v = original.clone();
        shuffle_exercises(&mut v);
        let mut tasks: Vec<String> = v.iter().map(|e| e.task.clone()).collect();
        if tasks != original.iter().map(|e| e.task.clone()).collect::<Vec<_>>() {
            changed = true;
        }
        tasks.sort();
        let mut expected: Vec<String> = original.iter().map(|e| e.task.clone()).collect();
        expected.sort();
        assert_eq!(tasks, expected);
    }
    assert!(changed);
}
