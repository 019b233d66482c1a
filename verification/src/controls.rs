//! What the keys of the host do to the local input and to the client's
//! settings.

use crate::netcode::model::ClientView;
use crate::netcode::NetcodeClient;
use vstd::prelude::*;

verus! {

/// A change to the client's settings.
#[derive(Clone, Copy, Debug, PartialEq, Eq, Structural)]
pub enum Tune {
    /// One more frame of allowed rollback.
    MoreRollback,
    /// One frame less of allowed rollback.
    LessRollback,
    /// One more frame of input delay.
    MoreDelay,
    /// One frame less of input delay.
    LessDelay,
    /// No change.
    Keep,
}

/// The direction keys.
#[derive(Clone, Copy, Debug, PartialEq, Eq, Structural)]
pub enum Direction {
    Left,
    Right,
    Neither,
}

/// The input that a direction key stands for.
pub fn axis_of(direction: Direction) -> (x_axis: i32)
    ensures
        x_axis == match direction {
            Direction::Left => -1int,
            Direction::Right => 1int,
            Direction::Neither => 0int,
        },
{
    match direction {
        Direction::Left => -1,
        Direction::Right => 1,
        Direction::Neither => 0,
    }
}

/// The least number of inputs to a packet.
pub const MIN_PACKET_BUFFER_SIZE: usize = 10;

/// The number of inputs to a packet that goes with the settings: enough to
/// cover the input delay and the allowed rollback, and 10 at least.
pub open spec fn buffer_size_for(input_delay: int, allowed_rollback: int) -> int {
    if input_delay + allowed_rollback > MIN_PACKET_BUFFER_SIZE {
        input_delay + allowed_rollback
    } else {
        MIN_PACKET_BUFFER_SIZE as int
    }
}

/// The allowed rollback after the change.
pub open spec fn tuned_rollback(allowed_rollback: int, tune: Tune) -> int {
    match tune {
        Tune::MoreRollback => allowed_rollback + 1,
        Tune::LessRollback => allowed_rollback - 1,
        _ => allowed_rollback,
    }
}

/// The input delay after the change.
pub open spec fn tuned_delay(input_delay: int, tune: Tune) -> int {
    match tune {
        Tune::MoreDelay => input_delay + 1,
        Tune::LessDelay => input_delay - 1,
        _ => input_delay,
    }
}

/// The change can be made: the settings stay within the machine's range.
pub open spec fn tunable<I, S>(c: ClientView<I, S>, tune: Tune) -> bool {
    &&& 0 <= tuned_rollback(c.allowed_rollback as int, tune)
    &&& 0 <= tuned_delay(c.input_delay as int, tune)
    &&& tuned_rollback(c.allowed_rollback as int, tune) + tuned_delay(c.input_delay as int, tune)
        <= usize::MAX
}

/// Whether the change can be made.
pub fn can_retune<I: Clone + Default + PartialEq, S>(client: &NetcodeClient<I, S>, tune: Tune) -> (b:
    bool)
    ensures
        b == tunable(client@, tune),
{
    let rollback = match tune {
        Tune::MoreRollback => client.allowed_rollback().checked_add(1),
        Tune::LessRollback => client.allowed_rollback().checked_sub(1),
        _ => Some(client.allowed_rollback()),
    };
    let delay = match tune {
        Tune::MoreDelay => client.input_delay().checked_add(1),
        Tune::LessDelay => client.input_delay().checked_sub(1),
        _ => Some(client.input_delay()),
    };
    match (rollback, delay) {
        (Some(rollback), Some(delay)) => rollback.checked_add(delay).is_some(),
        _ => false,
    }
}

/// Makes the change, and sets the number of inputs to a packet to go with
/// the new settings.
pub fn retune<I: Clone + Default + PartialEq, S>(client: &mut NetcodeClient<I, S>, tune: Tune)
    requires
        tunable(old(client)@, tune),
    ensures
        final(client).wf() == old(client).wf(),
        final(client)@ == (ClientView {
            allowed_rollback: tuned_rollback(old(client)@.allowed_rollback as int, tune) as usize,
            input_delay: tuned_delay(old(client)@.input_delay as int, tune) as usize,
            packet_buffer_size: buffer_size_for(
                tuned_delay(old(client)@.input_delay as int, tune),
                tuned_rollback(old(client)@.allowed_rollback as int, tune),
            ) as usize,
            ..old(client)@
        }),
{
    match tune {
        Tune::MoreRollback => {
            let value = client.allowed_rollback() + 1;
            client.set_allowed_rollback(value);
        },
        Tune::LessRollback => {
            let value = client.allowed_rollback() - 1;
            client.set_allowed_rollback(value);
        },
        Tune::MoreDelay => {
            let value = client.input_delay() + 1;
            client.set_input_delay(value);
        },
        Tune::LessDelay => {
            let value = client.input_delay() - 1;
            client.set_input_delay(value);
        },
        Tune::Keep => {},
    }
    let covered = client.input_delay() + client.allowed_rollback();
    let size = if covered > MIN_PACKET_BUFFER_SIZE {
        covered
    } else {
        MIN_PACKET_BUFFER_SIZE
    };
    client.set_packet_buffer_size(size);
}

} // verus!
