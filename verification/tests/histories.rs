use rollback_netcode::input_history::networked_history::{NetworkedHistory, PredictionResult};
use rollback_netcode::input_history::InputHistory;

#[test]
fn new_local_history_is_empty() {
    let history: InputHistory<i32> = InputHistory::new();
    assert_eq!(history.front(), 0);
    assert_eq!(history.len(), 0);
    assert_eq!(history.last_input(), 0);
    assert!(!history.has_input(0));
    assert!(history.get_input(0).is_none());
}

#[test]
fn adjust_frame_and_index_are_inverse() {
    let mut history: InputHistory<i32> = InputHistory::new();
    for value in 0..8 {
        history.add_input(value);
    }
    history.clean(3);
    assert_eq!(history.adjust_frame(3), 0);
    assert_eq!(history.adjust_frame(7), 4);
    assert_eq!(history.adjust_index(0), 3);
    assert_eq!(history.adjust_index(4), 7);
}

#[test]
fn local_history_appends_at_the_tail() {
    let mut history: InputHistory<i32> = InputHistory::new();
    assert_eq!(history.add_input(7), 0);
    assert_eq!(history.add_input(8), 1);
    assert_eq!(history.len(), 2);
    assert_eq!(history.last_input(), 1);
    assert_eq!(history.get_input(1), Some(&8));
}

#[test]
fn add_local_input_places_at_the_tail_when_behind() {
    let mut history: InputHistory<i32> = InputHistory::new();
    assert_eq!(history.add_local_input(0, 1), 0);
    // The target frame lies past the tail: the input goes to the tail.
    assert_eq!(history.add_local_input(5, 2), 1);
    assert_eq!(history.len(), 2);
    assert_eq!(history.get_input(1), Some(&2));
}

#[test]
fn add_local_input_keeps_a_frame_that_has_an_input() {
    let mut history: InputHistory<i32> = InputHistory::new();
    history.add_local_input(0, 1);
    history.add_local_input(1, 2);
    assert_eq!(history.add_local_input(0, 9), 0);
    assert_eq!(history.len(), 2);
    assert_eq!(history.get_input(0), Some(&1));
}

#[test]
fn add_network_input_fills_skipped_frames_with_defaults() {
    let mut history: InputHistory<i32> = InputHistory::new();
    history.add_network_input(3, 5);
    assert_eq!(history.len(), 4);
    assert!(!history.has_input(0));
    assert!(!history.has_input(2));
    assert!(history.has_input(3));
    assert_eq!(history.get_input(1), Some(&0));
    assert_eq!(history.get_input(3), Some(&5));
}

#[test]
fn add_network_input_keeps_the_first_input_of_a_frame() {
    let mut history: InputHistory<i32> = InputHistory::new();
    history.add_network_input(2, 5);
    history.add_network_input(2, 6);
    assert_eq!(history.get_input(2), Some(&5));
    // A skipped frame takes the input that arrives for it later.
    history.add_network_input(1, 4);
    assert!(history.has_input(1));
    assert_eq!(history.get_input(1), Some(&4));
    assert_eq!(history.len(), 3);
}

#[test]
fn get_inputs_returns_the_trailing_window() {
    let mut history: InputHistory<i32> = InputHistory::new();
    for value in 10..20 {
        history.add_input(value);
    }
    let (range, inputs) = history.get_inputs(6, 3);
    assert_eq!((range.first, range.end), (4, 7));
    assert_eq!(inputs, &[14, 15, 16]);
}

#[test]
fn get_inputs_ends_at_the_last_frame_when_asked_past_it() {
    let mut history: InputHistory<i32> = InputHistory::new();
    for value in 10..14 {
        history.add_input(value);
    }
    let (range, inputs) = history.get_inputs(9, 2);
    assert_eq!((range.first, range.end), (2, 4));
    assert_eq!(inputs, &[12, 13]);
}

#[test]
fn get_inputs_is_cut_at_the_front() {
    let mut history: InputHistory<i32> = InputHistory::new();
    for value in 10..14 {
        history.add_input(value);
    }
    let (range, inputs) = history.get_inputs(1, 5);
    assert_eq!((range.first, range.end), (0, 2));
    assert_eq!(inputs, &[10, 11]);
    let (range, inputs) = history.get_inputs(2, 0);
    assert_eq!((range.first, range.end), (3, 3));
    assert!(inputs.is_empty());
}

#[test]
fn get_inputs_of_an_empty_history_is_empty() {
    let history: InputHistory<i32> = InputHistory::new();
    let (range, inputs) = history.get_inputs(4, 3);
    assert_eq!((range.first, range.end), (0, 0));
    assert!(inputs.is_empty());
}

#[test]
fn clean_drops_the_frames_before_the_target() {
    let mut history: InputHistory<i32> = InputHistory::new();
    for value in 0..10 {
        history.add_input(value * 2);
    }
    history.clean(4);
    assert_eq!(history.front(), 4);
    assert_eq!(history.len(), 6);
    assert_eq!(history.get_input(4), Some(&8));
    assert_eq!(history.get_input(9), Some(&18));
    assert_eq!(history.last_input(), 9);
}

#[test]
fn clean_at_or_before_the_front_changes_nothing() {
    let mut history: InputHistory<i32> = InputHistory::new();
    for value in 0..10 {
        history.add_input(value);
    }
    history.clean(0);
    assert_eq!((history.front(), history.len()), (0, 10));
    history.clean(5);
    history.clean(5);
    assert_eq!((history.front(), history.len()), (5, 5));
    history.clean(2);
    assert_eq!((history.front(), history.len()), (5, 5));
    assert_eq!(history.get_input(5), Some(&5));
}

#[test]
fn clean_past_the_tail_empties_the_history() {
    let mut history: InputHistory<i32> = InputHistory::new();
    for value in 0..3 {
        history.add_input(value);
    }
    history.clean(7);
    assert_eq!((history.front(), history.len()), (7, 0));
    assert_eq!(history.add_input(1), 7);
}

#[test]
fn the_front_never_moves_back() {
    let mut history: NetworkedHistory<i32> = NetworkedHistory::new();
    let mut front = history.front();
    for frame in 0..30usize {
        history.add_input(frame, 1);
        if frame % 7 == 0 {
            history.clean(frame / 2);
        }
        if frame % 5 == 0 {
            history.predict(frame + 1);
        }
        assert!(history.front() >= front);
        front = history.front();
    }
    assert_eq!(front, 14);
}

#[test]
fn new_networked_history_is_empty() {
    let history: NetworkedHistory<i32> = NetworkedHistory::new();
    assert_eq!(history.front(), 0);
    assert_eq!(history.len(), 0);
    assert!(history.is_empty_input(0));
    assert!(!history.has_input(0));
    assert!(!history.is_predicted_input(0));
    assert_eq!(history.adjust_frame(3), Some(3));
}

#[test]
fn adjust_frame_before_the_front_is_none() {
    let mut history: NetworkedHistory<i32> = NetworkedHistory::new();
    history.add_input(9, 1);
    history.clean(4);
    assert_eq!(history.adjust_frame(3), None);
    assert_eq!(history.adjust_frame(4), Some(0));
    assert_eq!(history.adjust_frame(9), Some(5));
}

#[test]
fn add_input_at_the_tail_is_unpredicted() {
    let mut history: NetworkedHistory<i32> = NetworkedHistory::new();
    assert_eq!(history.add_input(0, 3), PredictionResult::Unpredicted);
    assert_eq!(history.add_input(1, 4), PredictionResult::Unpredicted);
    assert!(history.has_input(0));
    assert!(history.has_input(1));
    assert_eq!(history.len(), 2);
}

#[test]
fn add_input_past_the_tail_leaves_empty_slots() {
    let mut history: NetworkedHistory<i32> = NetworkedHistory::new();
    assert_eq!(history.add_input(3, 7), PredictionResult::Unpredicted);
    assert_eq!(history.len(), 4);
    assert!(history.is_empty_input(0));
    assert!(history.is_empty_input(2));
    assert!(history.has_input(3));
    assert_eq!(history.add_input(1, 5), PredictionResult::Unpredicted);
    assert!(history.has_input(1));
    let (range, inputs) = history.get_inputs(3, 4);
    assert_eq!((range.first, range.end), (0, 4));
    assert_eq!(inputs, &[0, 5, 0, 7]);
}

#[test]
fn a_confirmed_prediction_is_correct() {
    let mut history: NetworkedHistory<i32> = NetworkedHistory::new();
    history.add_input(0, 3);
    history.predict(1);
    assert!(history.is_predicted_input(1));
    assert!(!history.has_input(1));
    assert_eq!(history.add_input(1, 3), PredictionResult::Correct);
    assert!(history.has_input(1));
    assert!(!history.is_predicted_input(1));
}

#[test]
fn a_refuted_prediction_is_wrong_and_overwritten() {
    let mut history: NetworkedHistory<i32> = NetworkedHistory::new();
    history.add_input(0, 3);
    history.predict(1);
    assert_eq!(history.add_input(1, 4), PredictionResult::Wrong);
    assert!(history.has_input(1));
    let (_, inputs) = history.get_inputs(1, 2);
    assert_eq!(inputs, &[3, 4]);
}

#[test]
fn the_first_canonical_input_stays() {
    let mut history: NetworkedHistory<i32> = NetworkedHistory::new();
    assert_eq!(history.add_input(2, 5), PredictionResult::Unpredicted);
    assert_eq!(history.add_input(2, 6), PredictionResult::Correct);
    assert_eq!(history.add_input(2, 5), PredictionResult::Correct);
    let (_, inputs) = history.get_inputs(2, 1);
    assert_eq!(inputs, &[5]);
}

#[test]
fn predict_without_a_canonical_input_uses_the_default() {
    let mut history: NetworkedHistory<i32> = NetworkedHistory::new();
    history.predict(2);
    assert_eq!(history.len(), 3);
    assert!(history.is_empty_input(0));
    assert!(history.is_empty_input(1));
    assert!(history.is_predicted_input(2));
    let (_, inputs) = history.get_inputs(2, 1);
    assert_eq!(inputs, &[0]);
}

#[test]
fn predict_repeats_the_newest_canonical_input() {
    let mut history: NetworkedHistory<i32> = NetworkedHistory::new();
    history.add_input(0, 3);
    history.add_input(1, 8);
    history.predict(2);
    history.predict(3);
    let (range, inputs) = history.get_inputs(3, 10);
    assert_eq!((range.first, range.end), (0, 4));
    assert_eq!(inputs, &[3, 8, 8, 8]);
}

#[test]
fn predict_leaves_a_canonical_slot() {
    let mut history: NetworkedHistory<i32> = NetworkedHistory::new();
    history.add_input(0, 3);
    history.add_input(1, 8);
    history.predict(0);
    assert!(history.has_input(0));
    let (_, inputs) = history.get_inputs(0, 1);
    assert_eq!(inputs, &[3]);
}

#[test]
fn repredict_renews_from_the_newest_canonical_input() {
    let mut history: NetworkedHistory<i32> = NetworkedHistory::new();
    history.add_input(0, 1);
    history.predict(1);
    history.predict(2);
    assert_eq!(history.add_input(1, 6), PredictionResult::Wrong);
    history.repredict(2);
    assert!(history.is_predicted_input(2));
    let (_, inputs) = history.get_inputs(2, 3);
    assert_eq!(inputs, &[1, 6, 6]);
}

#[test]
fn repredict_leaves_slots_without_a_prediction() {
    let mut history: NetworkedHistory<i32> = NetworkedHistory::new();
    history.add_input(0, 1);
    history.add_input(2, 4);
    history.repredict(0);
    history.repredict(1);
    history.repredict(9);
    assert!(history.has_input(0));
    assert!(history.is_empty_input(1));
    assert_eq!(history.len(), 3);
    let (_, inputs) = history.get_inputs(2, 3);
    assert_eq!(inputs, &[1, 0, 4]);
}

#[test]
fn networked_clean_keeps_values_and_statuses() {
    let mut history: NetworkedHistory<i32> = NetworkedHistory::new();
    for frame in 0..6usize {
        history.add_input(frame, 10 + frame as i32);
    }
    history.predict(6);
    history.clean(4);
    assert_eq!((history.front(), history.len()), (4, 3));
    assert!(history.has_input(4));
    assert!(history.has_input(5));
    assert!(history.is_predicted_input(6));
    assert!(!history.has_input(3));
    assert!(history.is_empty_input(3));
    let (range, inputs) = history.get_inputs(6, 10);
    assert_eq!((range.first, range.end), (4, 7));
    assert_eq!(inputs, &[14, 15, 15]);
    history.clean(4);
    history.clean(1);
    assert_eq!((history.front(), history.len()), (4, 3));
}
