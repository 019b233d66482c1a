use rollback_netcode::game::{GameInput, GameState};
use rollback_netcode::netcode::{NetcodeClient, Packet, PlayerHandle};

type Client = NetcodeClient<GameInput, GameState>;

fn input(x_axis: i32) -> GameInput {
    GameInput { x_axis }
}

/// One of two peers. Player 0 is local to the first peer, player 1 to the second.
struct Peer {
    client: Client,
    game: GameState,
    local: PlayerHandle,
    accepted: usize,
    requests: usize,
    inbox: Vec<Packet<GameInput>>,
    outbox: Vec<Packet<GameInput>>,
}

fn peer(first: bool, allowed_rollback: usize) -> Peer {
    let mut client = Client::new(10);
    client.set_input_delay(1);
    client.set_allowed_rollback(allowed_rollback);
    client.set_packet_buffer_size(10);
    let local = if first {
        let local = client.add_local_player(0);
        client.add_net_player(1);
        local
    } else {
        client.add_net_player(0);
        client.add_local_player(1)
    };
    Peer { client, game: GameState::new(), local, accepted: 0, requests: 0, inbox: Vec::new(), outbox: Vec::new() }
}

impl Peer {
    /// One tick: the packets that arrived, the local input if there is one, the update.
    fn tick(&mut self, local_input: Option<&dyn Fn(usize) -> i32>) {
        for packet in std::mem::take(&mut self.inbox) {
            if let Some(reply) = self.client.handle_packet(packet) {
                self.outbox.push(reply);
            }
        }
        if let Some(pattern) = local_input {
            let value = input(pattern(self.accepted));
            if let Some(packet) = self.client.handle_local_input(value, self.local) {
                self.accepted += 1;
                self.outbox.push(packet);
            }
        }
        if let Some(packet) = self.client.update(&mut self.game) {
            self.requests += 1;
            self.outbox.push(packet);
        }
    }
}

/// Hands the packets of `from` to `to`, but for the batches of inputs that `lose` picks.
fn deliver(from: &mut Peer, to: &mut Peer, batches: &mut usize, lose: &dyn Fn(usize) -> bool) {
    for packet in std::mem::take(&mut from.outbox) {
        if let Packet::Inputs(..) = packet {
            *batches += 1;
            if lose(*batches) {
                continue;
            }
        }
        to.inbox.push(packet);
    }
}

fn first_pattern(frame: usize) -> i32 {
    [1, 1, 0, -1, 1, 0, 0][frame % 7]
}

fn second_pattern(frame: usize) -> i32 {
    [-1, 0, 1, 1, -1][frame % 5]
}

/// The state at `frame` when every input is known.
fn baseline(frame: usize, first: &dyn Fn(usize) -> i32, second: &dyn Fn(usize) -> i32) -> GameState {
    let mut game = GameState::new();
    for at in 0..frame {
        game.update(&input(first(at)), &input(second(at)));
    }
    game
}

fn same(a: &GameState, b: &GameState) -> bool {
    a.p1.x == b.p1.x && a.p2.x == b.p2.x
}

#[test]
fn perfect_channel_two_peers() {
    let mut a = peer(true, 9);
    let mut b = peer(false, 9);
    let still = |_: usize| 0;
    let mut batches = 0;
    let mut at_120: Vec<GameState> = Vec::new();
    let mut ticks = 0;
    while a.client.current_frame() < 120 || b.client.current_frame() < 120 {
        let before = (a.client.current_frame(), b.client.current_frame());
        a.tick(Some(&still));
        deliver(&mut a, &mut b, &mut batches, &|_| false);
        b.tick(Some(&still));
        deliver(&mut b, &mut a, &mut batches, &|_| false);
        let now = (a.client.current_frame(), b.client.current_frame());
        if before.0 < 120 && now.0 == 120 {
            at_120.push(a.game);
        }
        if before.1 < 120 && now.1 == 120 {
            at_120.push(b.game);
        }
        assert!(now.0.abs_diff(now.1) <= 1, "the peers stay within one frame: {:?}", now);
        ticks += 1;
        assert!(ticks < 400, "the peers advance");
    }
    assert!(a.client.current_frame().abs_diff(120) <= 1);
    assert!(b.client.current_frame().abs_diff(120) <= 1);
    assert_eq!(at_120.len(), 2);
    assert!(same(&at_120[0], &at_120[1]));
    assert!(same(&at_120[0], &GameState::new()));
}

#[test]
fn perfect_channel_with_moving_players() {
    let mut a = peer(true, 0);
    let mut b = peer(false, 0);
    let mut batches = 0;
    for _ in 0..150 {
        a.tick(Some(&first_pattern));
        deliver(&mut a, &mut b, &mut batches, &|_| false);
        b.tick(Some(&second_pattern));
        deliver(&mut b, &mut a, &mut batches, &|_| false);
    }
    assert!(a.client.current_frame() >= 100);
    // Without new inputs both peers come to rest where the inputs end.
    for _ in 0..60 {
        a.tick(None);
        deliver(&mut a, &mut b, &mut batches, &|_| false);
        b.tick(None);
        deliver(&mut b, &mut a, &mut batches, &|_| false);
    }
    let end = a.accepted.min(b.accepted);
    assert_eq!(a.client.current_frame(), end);
    assert_eq!(b.client.current_frame(), end);
    let expected = baseline(end, &first_pattern, &second_pattern);
    assert!(same(&a.game, &expected));
    assert!(same(&b.game, &expected));
}

#[test]
fn lossy_channel() {
    let mut a = peer(true, 0);
    let mut b = peer(false, 0);
    let mut batches = 0;
    let every_third = |count: usize| count % 3 == 0;
    for _ in 0..200 {
        a.tick(Some(&first_pattern));
        deliver(&mut a, &mut b, &mut batches, &every_third);
        b.tick(Some(&second_pattern));
        deliver(&mut b, &mut a, &mut batches, &every_third);
        // Without allowed rollback nothing is predicted, so nothing is rewound.
        assert_eq!(a.client.saved_state_count(), 0);
        assert_eq!(b.client.saved_state_count(), 0);
        assert_eq!(a.client.rollback_frame(), None);
        assert_eq!(b.client.rollback_frame(), None);
    }
    assert!(batches >= 300);
    assert!(a.client.current_frame() >= 100, "the peers catch up: {}", a.client.current_frame());
    assert!(b.client.current_frame() >= 100, "the peers catch up: {}", b.client.current_frame());
    for _ in 0..80 {
        a.tick(None);
        deliver(&mut a, &mut b, &mut batches, &|_| false);
        b.tick(None);
        deliver(&mut b, &mut a, &mut batches, &|_| false);
    }
    let end = a.accepted.min(b.accepted);
    assert_eq!(a.client.current_frame(), end);
    assert_eq!(b.client.current_frame(), end);
    let expected = baseline(end, &first_pattern, &second_pattern);
    assert!(same(&a.game, &expected));
    assert!(same(&b.game, &expected));
}

/// Ticks both peers `ticks` times. A peer produces inputs until it has
/// produced `frames` of them; from then on it predicts no more.
fn run(a: &mut Peer, b: &mut Peer, ticks: usize, frames: usize, batches: &mut usize, lose: &dyn Fn(usize) -> bool) {
    for _ in 0..ticks {
        if a.accepted >= frames {
            a.client.set_allowed_rollback(0);
            a.tick(None);
        } else {
            a.tick(Some(&first_pattern));
        }
        deliver(a, b, batches, lose);
        if b.accepted >= frames {
            b.client.set_allowed_rollback(0);
            b.tick(None);
        } else {
            b.tick(Some(&second_pattern));
        }
        deliver(b, a, batches, lose);
        assert!(a.client.saved_state_count() <= 9);
        assert!(b.client.saved_state_count() <= 9);
    }
}

#[test]
fn lossy_channel_with_predictions() {
    let mut a = peer(true, 9);
    let mut b = peer(false, 9);
    let mut batches = 0;
    run(&mut a, &mut b, 200, 230, &mut batches, &|count| count % 3 == 0);
    assert!(a.client.current_frame() >= 100);
    assert!(b.client.current_frame() >= 100);
    assert!(a.accepted < 230 && b.accepted < 230);
    // The channel recovers. Once every input has arrived, both peers are in
    // the state that the inputs lead to, whatever they predicted on the way.
    run(&mut a, &mut b, 200, 230, &mut batches, &|_| false);
    assert_eq!((a.accepted, b.accepted), (230, 230));
    assert_eq!(a.client.current_frame(), 230);
    assert_eq!(b.client.current_frame(), 230);
    assert_eq!(a.client.rollback_frame(), None);
    assert_eq!(b.client.rollback_frame(), None);
    assert_eq!(a.client.saved_state_count(), 0);
    assert_eq!(b.client.saved_state_count(), 0);
    let expected = baseline(230, &first_pattern, &second_pattern);
    assert!(same(&a.game, &expected), "{:?} {:?}", a.game, expected);
    assert!(same(&b.game, &expected), "{:?} {:?}", b.game, expected);
}

/// Peer B alone, with what peer A sends made by hand: the inputs of player 0
/// for the frames `frames`, sent on the last of them.
fn batch(sender: PlayerHandle, start: usize, values: &[i32]) -> Packet<GameInput> {
    Packet::Inputs(sender, start + values.len() - 1, start, values.iter().map(|v| input(*v)).collect())
}

#[test]
fn correct_prediction() {
    let mut b = peer(false, 9);
    let remote = PlayerHandle(0);
    let still = |_: usize| 0;
    for frame in 0..12 {
        b.inbox.push(batch(remote, frame, &[0]));
        b.tick(Some(&still));
        assert_eq!(b.client.current_frame(), frame + 1);
    }
    // The input of frame 12 is late: the peer advances on a prediction.
    b.tick(Some(&still));
    assert_eq!(b.client.current_frame(), 13);
    assert_eq!(b.client.saved_state_count(), 1);
    assert_eq!(b.requests, 0);
    // It arrives and equals the prediction.
    b.inbox.push(batch(remote, 12, &[0, 0]));
    b.tick(Some(&still));
    assert_eq!(b.client.saved_state_count(), 0);
    assert_eq!(b.client.rollback_frame(), None);
    assert_eq!(b.client.current_frame(), 14);
    assert!(same(&b.game, &baseline(14, &still, &still)));
}

#[test]
fn correct_prediction_of_a_moving_player() {
    let mut b = peer(false, 9);
    let remote = PlayerHandle(0);
    let right = |_: usize| 1;
    let still = |_: usize| 0;
    for frame in 0..12 {
        b.inbox.push(batch(remote, frame, &[1]));
        b.tick(Some(&still));
    }
    for round in 1..=3 {
        b.tick(Some(&still));
        assert_eq!(b.client.current_frame(), 12 + round);
        assert_eq!(b.client.saved_state_count(), round);
    }
    b.inbox.push(batch(remote, 12, &[1, 1, 1, 1]));
    b.tick(Some(&still));
    assert_eq!(b.client.saved_state_count(), 0);
    assert_eq!(b.client.rollback_frame(), None);
    assert_eq!(b.client.current_frame(), 16);
    assert!(same(&b.game, &baseline(16, &right, &still)));
}

#[test]
fn wrong_prediction_and_rollback() {
    let mut b = peer(false, 4);
    let remote = PlayerHandle(0);
    let still = |_: usize| 0;
    let first = |frame: usize| if frame == 5 { 1 } else { 0 };
    for frame in 0..5 {
        b.inbox.push(batch(remote, frame, &[0]));
        b.tick(Some(&still));
    }
    assert_eq!(b.client.current_frame(), 5);
    // Frames 5 to 8 are advanced on the prediction that player 0 stays.
    for frame in 5..9 {
        b.tick(Some(&still));
        assert_eq!(b.client.current_frame(), frame + 1);
        assert_eq!(b.client.saved_state_count(), frame - 4);
        assert!(same(&b.game, &GameState::new()));
    }
    // At frame 9 the peer has used up its allowed rollback and asks.
    b.tick(Some(&still));
    assert_eq!(b.client.current_frame(), 9);
    assert_eq!(b.requests, 1);
    // The late batch arrives: player 0 moved on frame 5.
    let reply = b.client.handle_packet(batch(remote, 5, &[1, 0, 0, 0, 0]));
    assert!(reply.is_none());
    assert_eq!(b.client.rollback_frame(), Some(5));
    assert_eq!(b.client.saved_state_count(), 0);
    assert!(same(&b.game, &GameState::new()));
    // The next update rewinds to frame 5, replays, and advances.
    assert!(b.client.update(&mut b.game).is_none());
    assert_eq!(b.client.rollback_frame(), None);
    assert_eq!(b.client.current_frame(), 10);
    assert_eq!((b.game.p1.x, b.game.p2.x), (-96, 100));
    assert!(same(&b.game, &baseline(10, &first, &still)));
}

#[test]
fn rollback_renews_the_predictions_that_remain() {
    let mut b = peer(false, 4);
    let remote = PlayerHandle(0);
    let still = |_: usize| 0;
    for frame in 0..5 {
        b.inbox.push(batch(remote, frame, &[0]));
        b.tick(Some(&still));
    }
    for _ in 5..9 {
        b.tick(Some(&still));
    }
    assert_eq!(b.client.saved_state_count(), 4);
    // Only the input of frame 5 arrives: player 0 moves right.
    b.client.handle_net_input(5, input(1), remote);
    assert_eq!(b.client.rollback_frame(), Some(5));
    assert_eq!(b.client.saved_state_count(), 3);
    // The replay predicts that it keeps moving right on the frames 6 to 8,
    // and saves the state before each of them anew. The earliest snapshot is
    // now of frame 6, so the peer may advance on a prediction once more.
    b.tick(None);
    assert_eq!(b.client.rollback_frame(), None);
    assert_eq!(b.client.current_frame(), 10);
    assert_eq!(b.client.saved_state_count(), 4);
    assert_eq!(b.game.p1.x, -80);
    // It did so on the frames 6 and 7, and stopped on frame 8.
    let reply = b.client.handle_packet(batch(remote, 6, &[1, 1, 0, 0]));
    assert!(reply.is_none());
    assert_eq!(b.client.rollback_frame(), Some(8));
    assert_eq!(b.client.saved_state_count(), 0);
    // The batch was sent on frame 9, one frame behind: after the rewind the
    // peer pauses for one tick.
    assert_eq!(b.client.skip_frames(), 1);
    b.tick(Some(&still));
    assert_eq!(b.client.rollback_frame(), None);
    assert_eq!(b.client.skip_frames(), 0);
    assert_eq!(b.client.current_frame(), 10);
    assert_eq!(b.client.saved_state_count(), 0);
    assert_eq!(b.game.p1.x, -88);
}

#[test]
fn clock_skew() {
    let mut a = peer(true, 9);
    let remote = PlayerHandle(1);
    let still = |_: usize| 0;
    for frame in 0..60 {
        a.inbox.push(batch(remote, frame, &[0]));
        a.tick(Some(&still));
    }
    assert_eq!(a.client.current_frame(), 60);
    // The batches of the peer arrive six frames late.
    a.client.handle_packet(Packet::Inputs(remote, 54, 60, vec![input(0)]));
    assert_eq!(a.client.skip_frames(), 6);
    for left in (0..6).rev() {
        a.tick(Some(&still));
        assert_eq!(a.client.current_frame(), 60);
        assert_eq!(a.client.skip_frames(), left);
    }
    a.tick(Some(&still));
    assert_eq!(a.client.current_frame(), 61);
    // With the transit time known, a batch that is on time asks for no pause.
    a.client.set_network_delay(6, remote);
    a.client.handle_packet(Packet::Inputs(remote, 55, 61, vec![input(0)]));
    assert_eq!(a.client.skip_frames(), 0);
}

#[test]
fn garbage_collection() {
    let mut a = peer(true, 9);
    let mut b = peer(false, 9);
    let still = |_: usize| 0;
    let mut batches = 0;
    while a.client.current_frame() <= 40 || b.client.current_frame() <= 40 {
        a.tick(Some(&still));
        deliver(&mut a, &mut b, &mut batches, &|_| false);
        b.tick(Some(&still));
        deliver(&mut b, &mut a, &mut batches, &|_| false);
    }
    for peer in [&a, &b] {
        for handle in [PlayerHandle(0), PlayerHandle(1)] {
            assert!(peer.client.history_front(handle) >= 21);
            assert!(peer.client.history_len(handle) <= 22);
        }
    }
}

#[test]
fn two_clients_fed_alike_stay_alike() {
    let mut one = peer(false, 3);
    let mut other = peer(false, 3);
    let remote = PlayerHandle(0);
    for frame in 0..60usize {
        for peer in [&mut one, &mut other] {
            if frame % 4 != 3 {
                peer.inbox.push(batch(remote, frame.saturating_sub(2), &[first_pattern(frame), 1, -1]));
            }
            if frame % 9 == 0 {
                peer.inbox.push(Packet::Request(frame));
            }
            peer.tick(Some(&second_pattern));
        }
        assert_eq!(one.client.current_frame(), other.client.current_frame());
        assert_eq!(one.client.skip_frames(), other.client.skip_frames());
        assert_eq!(one.client.saved_state_count(), other.client.saved_state_count());
        assert_eq!(one.client.rollback_frame(), other.client.rollback_frame());
        assert!(same(&one.game, &other.game));
        assert_eq!(one.outbox.len(), other.outbox.len());
    }
    assert!(one.client.current_frame() > 20);
}
