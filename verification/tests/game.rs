use rollback_netcode::game::{GameInput, GameState};
use rollback_netcode::netcode::{InputSet, RollbackableGameState};

fn input(x_axis: i32) -> GameInput {
    GameInput { x_axis }
}

#[test]
fn the_players_start_apart() {
    let state = GameState::new();
    assert_eq!((state.p1.x, state.p2.x), (-100, 100));
}

#[test]
fn the_default_input_stays() {
    assert_eq!(GameInput::default().x_axis, 0);
    assert!(GameInput::default() == input(0));
    assert!(input(1) != input(-1));
}

#[test]
fn update_moves_by_four() {
    let mut state = GameState::new();
    state.update(&input(1), &input(-1));
    assert_eq!((state.p1.x, state.p2.x), (-96, 96));
    state.update(&input(-7), &input(0));
    assert_eq!((state.p1.x, state.p2.x), (-100, 96));
    state.update(&input(0), &input(3));
    assert_eq!((state.p1.x, state.p2.x), (-100, 100));
}

#[test]
fn positions_wrap_at_the_ends() {
    let mut state = GameState::new();
    state.p1.x = i32::MAX - 1;
    state.p2.x = i32::MIN + 1;
    state.update(&input(1), &input(-1));
    assert_eq!(state.p1.x, i32::MIN + 2);
    assert_eq!(state.p2.x, i32::MAX - 2);
}

#[test]
fn advance_frame_takes_the_last_input_of_each_slice() {
    let mut state = GameState::new();
    let first = [input(-1), input(0), input(1)];
    let second = [input(1), input(-1)];
    state.advance_frame(InputSet { inputs: vec![&first[..], &second[..]] });
    assert_eq!((state.p1.x, state.p2.x), (-96, 96));
}

#[test]
fn advance_frame_without_both_inputs_stays() {
    let mut state = GameState::new();
    let first = [input(1)];
    let none: [GameInput; 0] = [];
    state.advance_frame(InputSet { inputs: vec![&first[..]] });
    assert_eq!((state.p1.x, state.p2.x), (-100, 100));
    state.advance_frame(InputSet { inputs: vec![&first[..], &none[..]] });
    assert_eq!((state.p1.x, state.p2.x), (-100, 100));
    state.advance_frame(InputSet { inputs: vec![] });
    assert_eq!((state.p1.x, state.p2.x), (-100, 100));
}

#[test]
fn loading_a_snapshot_gives_the_state_back() {
    let mut state = GameState::new();
    state.update(&input(1), &input(1));
    let snapshot = state.save_state();
    state.update(&input(1), &input(1));
    assert_eq!((state.p1.x, state.p2.x), (-92, 108));
    state.load_state(snapshot);
    assert_eq!((state.p1.x, state.p2.x), (-96, 104));
}
