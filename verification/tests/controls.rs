use rollback_netcode::controls::{axis_of, can_retune, retune, Direction, Tune};
use rollback_netcode::game::{GameInput, GameState};
use rollback_netcode::netcode::NetcodeClient;

type Client = NetcodeClient<GameInput, GameState>;

#[test]
fn the_direction_keys_give_the_axis() {
    assert_eq!(axis_of(Direction::Left), -1);
    assert_eq!(axis_of(Direction::Right), 1);
    assert_eq!(axis_of(Direction::Neither), 0);
}

#[test]
fn retune_changes_one_setting_by_one() {
    let mut client = Client::new(100);
    retune(&mut client, Tune::MoreRollback);
    assert_eq!((client.allowed_rollback(), client.input_delay()), (10, 1));
    retune(&mut client, Tune::MoreDelay);
    assert_eq!((client.allowed_rollback(), client.input_delay()), (10, 2));
    retune(&mut client, Tune::LessRollback);
    retune(&mut client, Tune::LessRollback);
    assert_eq!((client.allowed_rollback(), client.input_delay()), (8, 2));
    retune(&mut client, Tune::LessDelay);
    assert_eq!((client.allowed_rollback(), client.input_delay()), (8, 1));
    retune(&mut client, Tune::Keep);
    assert_eq!((client.allowed_rollback(), client.input_delay()), (8, 1));
}

#[test]
fn the_packet_buffer_covers_delay_and_rollback() {
    let mut client = Client::new(100);
    client.set_packet_buffer_size(3);
    retune(&mut client, Tune::Keep);
    assert_eq!(client.packet_buffer_size(), 10);
    retune(&mut client, Tune::MoreRollback);
    assert_eq!(client.packet_buffer_size(), 11);
    retune(&mut client, Tune::MoreDelay);
    assert_eq!(client.packet_buffer_size(), 12);
    retune(&mut client, Tune::LessRollback);
    retune(&mut client, Tune::LessRollback);
    retune(&mut client, Tune::LessRollback);
    assert_eq!((client.allowed_rollback(), client.input_delay()), (7, 2));
    assert_eq!(client.packet_buffer_size(), 10);
}

#[test]
fn a_setting_cannot_leave_the_range() {
    let mut client = Client::new(100);
    client.set_allowed_rollback(0);
    assert!(!can_retune(&client, Tune::LessRollback));
    assert!(can_retune(&client, Tune::MoreRollback));
    assert!(can_retune(&client, Tune::LessDelay));
    client.set_input_delay(0);
    assert!(!can_retune(&client, Tune::LessDelay));
    assert!(can_retune(&client, Tune::Keep));
    client.set_input_delay(usize::MAX);
    assert!(!can_retune(&client, Tune::MoreDelay));
    assert!(!can_retune(&client, Tune::MoreRollback));
    assert!(can_retune(&client, Tune::LessDelay));
    client.set_allowed_rollback(1);
    assert!(!can_retune(&client, Tune::Keep));
    assert!(can_retune(&client, Tune::LessRollback));
}
