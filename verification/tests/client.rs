use rollback_netcode::game::{GameInput, GameState};
use rollback_netcode::netcode::{NetcodeClient, Packet, PlayerHandle};

type Client = NetcodeClient<GameInput, GameState>;

fn input(x_axis: i32) -> GameInput {
    GameInput { x_axis }
}

fn axes(values: &[GameInput]) -> Vec<i32> {
    values.iter().map(|value| value.x_axis).collect()
}

/// A client with the networked player 0 and the local player 1.
fn client(allowed_rollback: usize) -> (Client, PlayerHandle, PlayerHandle) {
    let mut client = Client::new(10);
    client.set_allowed_rollback(allowed_rollback);
    let remote = client.add_net_player(0);
    let local = client.add_local_player(1);
    (client, remote, local)
}

/// One tick on which the inputs of both players for the current frame are known.
fn tick(client: &mut Client, game: &mut GameState, remote: PlayerHandle, local: PlayerHandle, theirs: i32, ours: i32) {
    let frame = client.current_frame();
    let reply = client.handle_packet(Packet::Inputs(remote, frame, frame, vec![input(theirs)]));
    assert!(reply.is_none());
    client.handle_local_input(input(ours), local);
    assert!(client.update(game).is_none());
    assert_eq!(client.current_frame(), frame + 1);
}

#[test]
fn a_new_client_has_the_default_settings() {
    let client = Client::new(10);
    assert_eq!(client.current_frame(), 0);
    assert_eq!(client.input_delay(), 1);
    assert_eq!(client.allowed_rollback(), 9);
    assert_eq!(client.packet_buffer_size(), 10);
    assert_eq!(client.skip_frames(), 0);
    assert_eq!(client.saved_state_count(), 0);
    assert_eq!(client.rollback_frame(), None);
}

#[test]
fn the_settings_can_be_set() {
    let mut client = Client::new(10);
    client.set_input_delay(3);
    client.set_allowed_rollback(5);
    client.set_packet_buffer_size(12);
    assert_eq!(client.input_delay(), 3);
    assert_eq!(client.allowed_rollback(), 5);
    assert_eq!(client.packet_buffer_size(), 12);
}

#[test]
fn handles_carry_the_index() {
    let mut client = Client::new(10);
    let first = client.add_local_player(4);
    let second = client.add_net_player(2);
    assert_eq!(first.id(), 4);
    assert_eq!(second.id(), 2);
    assert_eq!(first, PlayerHandle(4));
    assert!(client.is_local_player(first));
    assert!(!client.is_net_player(first));
    assert!(client.is_net_player(second));
    assert!(!client.is_local_player(second));
    assert!(!client.is_local_player(PlayerHandle(7)));
    assert!(!client.is_net_player(PlayerHandle(7)));
}

#[test]
fn a_registered_player_keeps_its_class() {
    let mut client = Client::new(10);
    let first = client.add_local_player(0);
    let again = client.add_net_player(0);
    assert_eq!(first, again);
    assert!(client.is_local_player(first));
    assert!(!client.is_net_player(first));
}

#[test]
fn the_network_delay_is_kept_per_player() {
    let mut client = Client::new(10);
    let first = client.add_net_player(0);
    let second = client.add_net_player(1);
    assert_eq!(client.get_network_delay(first), 0);
    client.set_network_delay(3, first);
    client.set_network_delay(5, second);
    assert_eq!(client.get_network_delay(first), 3);
    assert_eq!(client.get_network_delay(second), 5);
}

#[test]
fn a_local_input_is_sent_with_the_inputs_before_it() {
    let (mut client, remote, local) = client(9);
    let mut game = GameState::new();
    client.set_packet_buffer_size(3);
    for frame in 0..5 {
        let packet = client.handle_local_input(input(frame + 1), local);
        match packet {
            Some(Packet::Inputs(sender, sent_on, first, values)) => {
                assert_eq!(sender, local);
                assert_eq!(sent_on, frame as usize);
                assert_eq!(first + values.len(), frame as usize + 1);
                assert_eq!(values.len(), (frame as usize + 1).min(3));
                assert_eq!(values.last().map(|value| value.x_axis), Some(frame + 1));
            }
            _ => panic!("a batch of inputs is sent"),
        }
        let at = client.current_frame();
        client.handle_packet(Packet::Inputs(remote, at, at, vec![input(0)]));
        client.update(&mut game);
    }
    match client.handle_local_input(input(9), local) {
        Some(Packet::Inputs(_, sent_on, first, values)) => {
            assert_eq!((sent_on, first), (5, 3));
            assert_eq!(axes(&values), vec![4, 5, 9]);
        }
        _ => panic!("a batch of inputs is sent"),
    }
}

#[test]
fn a_local_input_is_refused_once_the_delayed_frame_has_one() {
    let (mut client, _, local) = client(9);
    // With a delay of one frame the history may run one frame ahead.
    assert!(client.handle_local_input(input(1), local).is_some());
    assert!(client.handle_local_input(input(2), local).is_some());
    assert!(client.handle_local_input(input(3), local).is_none());
    assert_eq!(client.history_len(local), 2);
    client.set_input_delay(3);
    assert!(client.handle_local_input(input(4), local).is_some());
    assert!(client.handle_local_input(input(5), local).is_some());
    assert!(client.handle_local_input(input(6), local).is_none());
    assert_eq!(client.history_len(local), 4);
}

#[test]
fn a_batch_sets_the_frames_to_skip() {
    let (mut client, remote, local) = client(9);
    let mut game = GameState::new();
    for _ in 0..20 {
        tick(&mut client, &mut game, remote, local, 0, 0);
    }
    assert_eq!(client.current_frame(), 20);
    client.handle_packet(Packet::Inputs(remote, 14, 14, vec![]));
    assert_eq!(client.skip_frames(), 6);
    client.handle_packet(Packet::Inputs(remote, 20, 20, vec![]));
    assert_eq!(client.skip_frames(), 0);
    client.handle_packet(Packet::Inputs(remote, 25, 25, vec![]));
    assert_eq!(client.skip_frames(), 0);
    client.set_network_delay(2, remote);
    client.handle_packet(Packet::Inputs(remote, 14, 14, vec![]));
    assert_eq!(client.skip_frames(), 4);
    client.handle_packet(Packet::Inputs(remote, usize::MAX, 14, vec![]));
    assert_eq!(client.skip_frames(), 0);
}

#[test]
fn a_client_that_is_ahead_pauses() {
    let (mut client, remote, local) = client(9);
    let mut game = GameState::new();
    for _ in 0..20 {
        tick(&mut client, &mut game, remote, local, 1, 0);
    }
    let before = game;
    client.handle_packet(Packet::Inputs(remote, 17, 20, vec![input(1)]));
    client.handle_local_input(input(0), local);
    assert_eq!(client.skip_frames(), 3);
    for left in [2, 1, 0] {
        assert!(client.update(&mut game).is_none());
        assert_eq!(client.current_frame(), 20);
        assert_eq!(client.skip_frames(), left);
        assert_eq!(game.p1.x, before.p1.x);
    }
    assert!(client.update(&mut game).is_none());
    assert_eq!(client.current_frame(), 21);
    assert_eq!(game.p1.x, before.p1.x + 4);
}

#[test]
fn a_request_is_answered_with_the_local_inputs() {
    let (mut client, _, local) = client(9);
    client.handle_local_input(input(5), local);
    client.handle_local_input(input(6), local);
    match client.handle_packet(Packet::Request(0)) {
        Some(Packet::Provide(entries)) => {
            assert_eq!(entries.len(), 1);
            assert_eq!(entries[0].0, local);
            assert_eq!(entries[0].1, 0);
            assert_eq!(axes(&entries[0].2), vec![5]);
        }
        _ => panic!("a request is answered"),
    }
    // A request past the last input is answered with the last input.
    match client.handle_packet(Packet::Request(7)) {
        Some(Packet::Provide(entries)) => {
            assert_eq!(entries[0].1, 1);
            assert_eq!(axes(&entries[0].2), vec![6]);
        }
        _ => panic!("a request is answered"),
    }
}

#[test]
fn a_request_answers_for_every_local_player_in_order() {
    let mut client = Client::new(10);
    let first = client.add_local_player(3);
    client.add_net_player(1);
    let second = client.add_local_player(2);
    client.handle_local_input(input(7), second);
    match client.handle_packet(Packet::Request(0)) {
        Some(Packet::Provide(entries)) => {
            assert_eq!(entries.len(), 2);
            assert_eq!((entries[0].0, entries[0].1), (first, 0));
            assert!(entries[0].2.is_empty());
            assert_eq!((entries[1].0, entries[1].1), (second, 0));
            assert_eq!(axes(&entries[1].2), vec![7]);
        }
        _ => panic!("a request is answered"),
    }
}

#[test]
fn a_request_without_a_local_player_has_no_answer() {
    let mut client = Client::new(10);
    assert!(client.handle_packet(Packet::Request(0)).is_none());
    let remote = client.add_net_player(0);
    client.handle_net_input(0, input(1), remote);
    assert!(client.handle_packet(Packet::Request(0)).is_none());
    assert!(client.handle_packet(Packet::Request(5)).is_none());
}

#[test]
fn an_answer_hands_over_its_inputs() {
    let (mut client, remote, local) = client(9);
    let mut game = GameState::new();
    let reply = client.handle_packet(Packet::Provide(vec![(remote, 0, vec![input(1), input(1)])]));
    assert!(reply.is_none());
    assert_eq!(client.history_len(remote), 2);
    client.handle_local_input(input(0), local);
    client.handle_local_input(input(0), local);
    assert!(client.update(&mut game).is_none());
    assert!(client.update(&mut game).is_none());
    assert_eq!(client.current_frame(), 2);
    assert_eq!(game.p1.x, -92);
    // The input of the frame that is missing is asked for.
    match client.update(&mut game) {
        Some(Packet::Request(frame)) => assert_eq!(frame, 2),
        _ => panic!("the missing input is asked for"),
    }
}

#[test]
fn the_client_advances_on_canonical_inputs() {
    let (mut client, remote, local) = client(9);
    let mut game = GameState::new();
    tick(&mut client, &mut game, remote, local, 1, -1);
    tick(&mut client, &mut game, remote, local, 0, -1);
    tick(&mut client, &mut game, remote, local, -1, 1);
    assert_eq!((game.p1.x, game.p2.x), (-100, 96));
    assert_eq!(client.saved_state_count(), 0);
}

#[test]
fn a_client_without_players_advances() {
    let mut client = Client::new(10);
    let mut game = GameState::new();
    assert!(client.update(&mut game).is_none());
    assert_eq!(client.current_frame(), 1);
    assert_eq!((game.p1.x, game.p2.x), (-100, 100));
}

#[test]
fn up_to_the_allowed_rollback_the_client_waits() {
    let (mut client, remote, local) = client(3);
    let mut game = GameState::new();
    for _ in 0..3 {
        tick(&mut client, &mut game, remote, local, 0, 0);
    }
    // Frame 3 is not past the allowed rollback of 3 frames.
    client.handle_local_input(input(0), local);
    for _ in 0..2 {
        match client.update(&mut game) {
            Some(Packet::Request(frame)) => assert_eq!(frame, 3),
            _ => panic!("the missing input is asked for"),
        }
        assert_eq!(client.current_frame(), 3);
        assert_eq!(client.saved_state_count(), 0);
    }
    tick(&mut client, &mut game, remote, local, 0, 0);
    // Frame 4 is.
    client.handle_local_input(input(0), local);
    assert!(client.update(&mut game).is_none());
    assert_eq!(client.current_frame(), 5);
    assert_eq!(client.saved_state_count(), 1);
}

#[test]
fn without_allowed_rollback_the_client_never_predicts() {
    let (mut client, remote, local) = client(0);
    let mut game = GameState::new();
    for _ in 0..15 {
        tick(&mut client, &mut game, remote, local, 0, 0);
    }
    client.handle_local_input(input(0), local);
    assert!(matches!(client.update(&mut game), Some(Packet::Request(15))));
    assert_eq!(client.current_frame(), 15);
    assert_eq!(client.saved_state_count(), 0);
}

#[test]
fn the_snapshots_stay_within_the_allowed_rollback() {
    let (mut client, remote, local) = client(4);
    let mut game = GameState::new();
    for _ in 0..6 {
        tick(&mut client, &mut game, remote, local, 0, 0);
    }
    for round in 1..=4 {
        client.handle_local_input(input(0), local);
        assert!(client.update(&mut game).is_none());
        assert_eq!(client.current_frame(), 6 + round);
        assert_eq!(client.saved_state_count(), round);
    }
    for _ in 0..3 {
        client.handle_local_input(input(0), local);
        assert!(matches!(client.update(&mut game), Some(Packet::Request(10))));
        assert_eq!(client.current_frame(), 10);
        assert_eq!(client.saved_state_count(), 4);
    }
}

#[test]
fn a_correct_prediction_lets_the_snapshot_go() {
    let (mut client, remote, local) = client(2);
    let mut game = GameState::new();
    for _ in 0..4 {
        tick(&mut client, &mut game, remote, local, 1, 0);
    }
    client.handle_local_input(input(0), local);
    assert!(client.update(&mut game).is_none());
    assert_eq!(client.saved_state_count(), 1);
    assert_eq!(game.p1.x, -80);
    client.handle_net_input(4, input(1), remote);
    assert_eq!(client.saved_state_count(), 0);
    assert_eq!(client.rollback_frame(), None);
    // A second arrival for the frame changes nothing.
    client.handle_net_input(4, input(-1), remote);
    assert_eq!(client.saved_state_count(), 0);
    assert_eq!(client.rollback_frame(), None);
}

#[test]
fn a_wrong_prediction_rewinds_to_its_frame() {
    let (mut client, remote, local) = client(2);
    let mut game = GameState::new();
    for _ in 0..4 {
        tick(&mut client, &mut game, remote, local, 1, 0);
    }
    for _ in 0..2 {
        client.handle_local_input(input(0), local);
        assert!(client.update(&mut game).is_none());
    }
    assert_eq!(client.current_frame(), 6);
    assert_eq!(client.saved_state_count(), 2);
    assert_eq!(game.p1.x, -76);
    // The later frame first: the rewind goes to it.
    client.handle_net_input(5, input(-1), remote);
    assert_eq!(client.rollback_frame(), Some(5));
    assert_eq!(client.saved_state_count(), 1);
    // Then the earlier one: the rewind goes further back.
    client.handle_net_input(4, input(0), remote);
    assert_eq!(client.rollback_frame(), Some(4));
    assert_eq!(client.saved_state_count(), 0);
    client.handle_local_input(input(0), local);
    client.handle_net_input(6, input(0), remote);
    assert!(client.update(&mut game).is_none());
    assert_eq!(client.rollback_frame(), None);
    assert_eq!(client.current_frame(), 7);
    // Four frames to the right, one to the left.
    assert_eq!(game.p1.x, -88);
}

#[test]
fn an_earlier_pending_rewind_stays() {
    let (mut client, remote, local) = client(2);
    let mut game = GameState::new();
    for _ in 0..4 {
        tick(&mut client, &mut game, remote, local, 1, 0);
    }
    for _ in 0..2 {
        client.handle_local_input(input(0), local);
        client.update(&mut game);
    }
    client.handle_net_input(4, input(0), remote);
    assert_eq!(client.rollback_frame(), Some(4));
    client.handle_net_input(5, input(0), remote);
    assert_eq!(client.rollback_frame(), Some(4));
    assert_eq!(client.saved_state_count(), 0);
}

#[test]
fn an_input_for_a_dropped_frame_is_ignored() {
    let (mut client, remote, local) = client(1);
    let mut game = GameState::new();
    for _ in 0..21 {
        tick(&mut client, &mut game, remote, local, 1, 0);
    }
    assert_eq!(client.history_front(remote), 9);
    let length = client.history_len(remote);
    client.handle_net_input(3, input(-1), remote);
    client.handle_packet(Packet::Inputs(remote, 21, 2, vec![input(-1), input(-1)]));
    assert_eq!(client.history_front(remote), 9);
    assert_eq!(client.history_len(remote), length);
    assert_eq!(client.rollback_frame(), None);
}

#[test]
fn the_histories_are_cleaned_on_every_held_count() {
    let (mut client, remote, local) = client(9);
    let mut game = GameState::new();
    for _ in 0..20 {
        tick(&mut client, &mut game, remote, local, 0, 0);
    }
    assert_eq!(client.history_front(remote), 0);
    assert_eq!(client.history_front(local), 0);
    tick(&mut client, &mut game, remote, local, 0, 0);
    assert_eq!(client.history_front(remote), 1);
    assert_eq!(client.history_front(local), 1);
    for _ in 0..20 {
        tick(&mut client, &mut game, remote, local, 0, 0);
    }
    assert_eq!(client.current_frame(), 41);
    assert_eq!(client.history_front(remote), 21);
    assert_eq!(client.history_front(local), 21);
    assert_eq!(client.history_len(remote), 20);
    assert_eq!(client.history_len(local), 20);
}

#[test]
fn a_packet_for_a_networked_player_is_accepted() {
    let (client, remote, local) = client(9);
    assert!(client.accepts(&Packet::Inputs(remote, 0, 0, vec![input(1)])));
    assert!(client.accepts(&Packet::Inputs(remote, 0, usize::MAX - 1, vec![input(1)])));
    assert!(client.accepts(&Packet::Request(7)));
    assert!(client.accepts(&Packet::Provide(vec![])));
    assert!(client.accepts(&Packet::Provide(vec![(remote, 3, vec![]), (remote, 0, vec![input(0)])])));
    assert!(!client.accepts(&Packet::Inputs(local, 0, 0, vec![])));
    assert!(!client.accepts(&Packet::Inputs(PlayerHandle(5), 0, 0, vec![])));
    assert!(!client.accepts(&Packet::Inputs(remote, 0, usize::MAX, vec![input(1)])));
    assert!(!client.accepts(&Packet::Provide(vec![(remote, 0, vec![]), (local, 0, vec![])])));
    assert!(!client.accepts(&Packet::Provide(vec![(remote, usize::MAX, vec![input(0)])])));
}
