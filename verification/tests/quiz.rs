use vokabulatr::quiz::Quiz;

fn deck(n: usize) -> Quiz {
    let mut records = Vec::new();
    for i in 0..n {
        records.push((format!("front{}", i), format!("back{}", i)));
    }
    Quiz::from_csv_input(records)
}

fn deck_with_wrong_counts(wrong: &[u32]) -> Quiz {
    let mut quiz = deck(wrong.len());
    for (index, count) in wrong.iter().enumerate() {
        for _ in 0..*count {
            quiz.items[index].statistics.record_attempt(false);
        }
        quiz.items[index].statistics.record_attempt(true);
    }
    quiz
}

#[test]
fn new_quiz_selects_all_cards_in_load_order() {
    let quiz = deck(4);
    assert_eq!(quiz.items.len(), 4);
    assert_eq!(quiz.selection, vec![0, 1, 2, 3]);
    assert_eq!(quiz.current, 3);
    assert_eq!(quiz.aggregate_statistics.attempts, 0);
    assert_eq!(quiz.items[2].front, "front2");
    assert_eq!(quiz.items[2].back, "back2");
    assert_eq!(quiz.items[2].statistics.attempts, 0);
}

#[test]
fn select_all_restores_load_order() {
    let mut quiz = deck(5);
    quiz.selection = vec![3, 1];
    quiz.current = 1;
    quiz.select_all();
    assert_eq!(quiz.selection, vec![0, 1, 2, 3, 4]);
    assert_eq!(quiz.current, 1);
}

#[test]
fn select_hardest_keeps_the_most_often_wrong() {
    let mut quiz = deck_with_wrong_counts(&[3, 0, 5, 1]);
    quiz.select_hardest(2);
    assert_eq!(quiz.selection.len(), 2);
    let mut kept = quiz.selection.clone();
    kept.sort();
    assert_eq!(kept, vec![0, 2]);
    assert_eq!(quiz.selection, vec![2, 0]);
    assert_eq!(quiz.items.len(), 4);
}

#[test]
fn select_hardest_with_large_count_keeps_everything() {
    let mut quiz = deck_with_wrong_counts(&[1, 4, 2]);
    quiz.select_hardest(10);
    assert_eq!(quiz.selection, vec![1, 2, 0]);
}

#[test]
fn select_hardest_ranks_current_selection_only() {
    let mut quiz = deck_with_wrong_counts(&[9, 1, 2, 3]);
    quiz.selection = vec![1, 2, 3];
    quiz.current = 0;
    quiz.select_hardest(2);
    assert_eq!(quiz.selection, vec![3, 2]);
}

#[test]
fn select_hardest_breaks_ties_by_later_card() {
    let mut quiz = deck_with_wrong_counts(&[2, 2, 2]);
    quiz.select_hardest(2);
    assert_eq!(quiz.selection, vec![2, 1]);
}

#[test]
fn select_hardest_moves_cursor_back_inside() {
    let mut quiz = deck_with_wrong_counts(&[3, 0, 5, 1]);
    assert_eq!(quiz.current, 3);
    quiz.select_hardest(2);
    assert_eq!(quiz.current, 0);
    assert_eq!(quiz.current().front, "front2");
}

#[test]
fn select_hardest_zero_empties_selection() {
    let mut quiz = deck_with_wrong_counts(&[3, 0]);
    quiz.select_hardest(0);
    assert!(quiz.selection.is_empty());
    assert_eq!(quiz.current, 0);
    quiz.select_all();
    assert_eq!(quiz.selection, vec![0, 1]);
}

#[test]
fn shuffle_keeps_the_same_indices() {
    let mut quiz = deck(20);
    quiz.selection = vec![0, 3, 3, 7, 19, 4, 4, 4];
    quiz.current = 2;
    for _ in 0..50 {
        quiz.shuffle_selection();
        let mut sorted = quiz.selection.clone();
        sorted.sort();
        assert_eq!(sorted, vec![0, 3, 3, 4, 4, 4, 7, 19]);
        assert_eq!(quiz.items.len(), 20);
        assert_eq!(quiz.current, 2);
    }
}

#[test]
fn shuffle_changes_the_order_sometimes() {
    let mut quiz = deck(30);
    let before = quiz.selection.clone();
    let mut changed = false;
    for _ in 0..20 {
        quiz.shuffle_selection();
        changed = changed || quiz.selection != before;
    }
    assert!(changed);
}

#[test]
fn current_follows_selection_and_cursor() {
    let mut quiz = deck(4);
    quiz.selection = vec![2, 0];
    quiz.current = 0;
    assert_eq!(quiz.current().front, "front2");
    quiz.advance();
    assert_eq!(quiz.current().front, "front0");
}

#[test]
fn advance_wraps_on_narrowed_selection() {
    let mut quiz = deck(5);
    quiz.selection = vec![4, 1];
    quiz.current = 0;
    quiz.advance();
    assert_eq!(quiz.current, 1);
    quiz.advance();
    assert_eq!(quiz.current, 0);
    assert_eq!(quiz.current().front, "front4");
}

#[test]
fn advance_from_last_card_returns_to_first() {
    let mut quiz = deck(3);
    assert_eq!(quiz.current, 2);
    quiz.advance();
    assert_eq!(quiz.current, 0);
    quiz.advance();
    assert_eq!(quiz.current, 1);
}

#[test]
fn single_card_deck_stays_on_its_card() {
    let mut quiz = deck(1);
    assert_eq!(quiz.current, 0);
    for _ in 0..10 {
        quiz.advance();
        assert_eq!(quiz.current, 0);
        assert_eq!(quiz.current().front, "front0");
        quiz.record_attempt(true);
    }
    assert_eq!(quiz.items[0].statistics.attempts, 10);
    assert_eq!(quiz.selection, vec![0]);
}

#[test]
fn record_attempt_updates_card_and_session() {
    let mut quiz = deck(3);
    quiz.selection = vec![2, 1];
    quiz.current = 1;
    quiz.record_attempt(false);
    quiz.record_attempt(true);
    assert_eq!(quiz.items[1].statistics.attempts, 2);
    assert_eq!(quiz.items[1].statistics.correct, 1);
    assert_eq!(quiz.items[0].statistics.attempts, 0);
    assert_eq!(quiz.items[2].statistics.attempts, 0);
    assert_eq!(quiz.aggregate_statistics.attempts, 2);
    assert_eq!(quiz.aggregate_statistics.correct, 1);
    assert_eq!(quiz.aggregate_statistics.history, 0b01);
    assert_eq!(quiz.current, 1);
}

#[test]
fn is_active_tells_runnable_states() {
    let mut quiz = deck(3);
    assert!(quiz.is_active());
    assert!(quiz.can_record());
    quiz.current = 3;
    assert!(!quiz.is_active());
    quiz.current = 0;
    quiz.selection = vec![0, 3];
    assert!(!quiz.is_active());
    quiz.selection = vec![];
    assert!(!quiz.is_active());
    assert!(!quiz.can_record());
    quiz.selection = vec![2, 2];
    quiz.current = 1;
    assert!(quiz.is_active());
    quiz.items[1].statistics.correct = 1;
    assert!(!quiz.is_active());
    quiz.items[1].statistics.correct = 0;
    quiz.aggregate_statistics.history = 1;
    assert!(!quiz.is_active());
}

#[test]
fn can_record_stops_at_counter_limit() {
    let mut quiz = deck(2);
    quiz.current = 0;
    quiz.items[0].statistics.attempts = u32::MAX;
    assert!(quiz.is_active());
    assert!(!quiz.can_record());
    quiz.current = 1;
    assert!(quiz.can_record());
    quiz.aggregate_statistics.attempts = u32::MAX;
    assert!(!quiz.can_record());
}
