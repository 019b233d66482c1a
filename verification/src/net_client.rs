//! Packets held back on purpose, to try the netcode on a slow line.
//!
//! Times are counted from a start that the host chooses, in whatever unit it
//! chooses.

use vstd::prelude::*;

verus! {

/// A packet that was queued at `queued_at` may go out at `now`: it has waited
/// longer than `delay`, or there is no delay.
pub open spec fn is_due(queued_at: u128, now: u128, delay: u128) -> bool {
    delay == 0 || queued_at + delay < now
}

/// The packets of `queue` that may go out, in the order they were queued.
pub open spec fn due_of(queue: Seq<(Seq<u8>, u128)>, now: u128, delay: u128) -> Seq<Seq<u8>>
    decreases queue.len(),
{
    if queue.len() == 0 {
        Seq::empty()
    } else if is_due(queue.last().1, now, delay) {
        due_of(queue.drop_last(), now, delay).push(queue.last().0)
    } else {
        due_of(queue.drop_last(), now, delay)
    }
}

/// The packets of `queue` that have to wait, in the order they were queued.
pub open spec fn waiting_of(queue: Seq<(Seq<u8>, u128)>, now: u128, delay: u128) -> Seq<
    (Seq<u8>, u128),
>
    decreases queue.len(),
{
    if queue.len() == 0 {
        Seq::empty()
    } else if is_due(queue.last().1, now, delay) {
        waiting_of(queue.drop_last(), now, delay)
    } else {
        waiting_of(queue.drop_last(), now, delay).push(queue.last())
    }
}

/// Every packet of a queue is due or waits.
pub proof fn lemma_due_or_waiting(queue: Seq<(Seq<u8>, u128)>, now: u128, delay: u128)
    ensures
        due_of(queue, now, delay).len() + waiting_of(queue, now, delay).len() == queue.len(),
        delay == 0 ==> waiting_of(queue, now, delay).len() == 0,
    decreases queue.len(),
{
    if queue.len() > 0 {
        lemma_due_or_waiting(queue.drop_last(), now, delay);
    }
}

/// Whether a packet that was queued at `queued_at` may go out at `now`.
pub fn due(queued_at: u128, now: u128, delay: u128) -> (b: bool)
    ensures
        b == is_due(queued_at, now, delay),
{
    if delay == 0 {
        true
    } else {
        match queued_at.checked_add(delay) {
            Some(ready) => ready < now,
            None => false,
        }
    }
}

/// Packets with the times at which they were queued.
pub struct DelayedPackets {
    packets: Vec<(Vec<u8>, u128)>,
}

impl View for DelayedPackets {
    type V = Seq<(Seq<u8>, u128)>;

    closed spec fn view(&self) -> Seq<(Seq<u8>, u128)> {
        Seq::new(self.packets@.len(), |i: int| (self.packets@[i].0@, self.packets@[i].1))
    }
}

impl DelayedPackets {
    /// An empty queue.
    pub fn new() -> (q: Self)
        ensures
            q@.len() == 0,
    {
        Self { packets: Vec::new() }
    }

    /// The number of packets in the queue.
    pub fn len(&self) -> (n: usize)
        ensures
            n == self@.len(),
    {
        self.packets.len()
    }

    /// Queues a packet at the time `queued_at`.
    pub fn push(&mut self, data: Vec<u8>, queued_at: u128)
        ensures
            final(self)@ == old(self)@.push((data@, queued_at)),
    {
        self.packets.push((data, queued_at));
        proof {
            assert(self@ =~= old(self)@.push((data@, queued_at)));
        }
    }

    /// The length of the packet that was queued last, or 0 where the queue
    /// is empty.
    pub fn last_len(&self) -> (n: usize)
        ensures
            n == if self@.len() == 0 {
                0
            } else {
                self@.last().0.len()
            },
    {
        if self.packets.len() == 0 {
            0
        } else {
            self.packets[self.packets.len() - 1].0.len()
        }
    }

    /// The packets that may go out at `now`, in the order they were queued.
    pub fn due_packets(&self, now: u128, delay: u128) -> (out: Vec<&[u8]>)
        ensures
            Seq::new(out@.len(), |i: int| out@[i]@) == due_of(self@, now, delay),
    {
        let mut out: Vec<&[u8]> = Vec::new();
        let mut i: usize = 0;
        while i < self.packets.len()
            invariant
                i <= self.packets@.len(),
                Seq::new(out@.len(), |k: int| out@[k]@) == due_of(self@.take(i as int), now, delay),
            decreases self.packets@.len() - i,
        {
            proof {
                assert(self@.take(i + 1).drop_last() =~= self@.take(i as int));
                assert(self@.take(i + 1).last() == self@[i as int]);
            }
            let ghost before = Seq::new(out@.len(), |k: int| out@[k]@);
            if due(self.packets[i].1, now, delay) {
                out.push(self.packets[i].0.as_slice());
                proof {
                    assert(Seq::new(out@.len(), |k: int| out@[k]@) =~= before.push(
                        self@[i as int].0,
                    ));
                }
            } else {
                proof {
                    assert(Seq::new(out@.len(), |k: int| out@[k]@) =~= before);
                }
            }
            i = i + 1;
        }
        proof {
            assert(self@.take(i as int) =~= self@);
        }
        out
    }

    /// Drops the packets that may go out at `now` and keeps the others.
    pub fn drop_due(&mut self, now: u128, delay: u128)
        ensures
            final(self)@ == waiting_of(old(self)@, now, delay),
    {
        let mut queued: Vec<(Vec<u8>, u128)> = Vec::new();
        core::mem::swap(&mut queued, &mut self.packets);
        let ghost all = old(self)@;
        let ghost raw = queued@;
        let ghost mut n: int = 0;
        proof {
            assert(self@ =~= waiting_of(all.take(0), now, delay));
        }
        for packet in it: queued.into_iter()
            invariant
                it.seq() == raw,
                n == it.index(),
                0 <= n <= raw.len(),
                all.len() == raw.len(),
                forall|k: int| 0 <= k < raw.len() ==> all[k] == (raw[k].0@, raw[k].1),
                self@ == waiting_of(all.take(n), now, delay),
        {
            proof {
                assert(all.take(n + 1).drop_last() =~= all.take(n));
                assert(all.take(n + 1).last() == all[n]);
            }
            let ghost before = self@;
            if !due(packet.1, now, delay) {
                self.packets.push(packet);
                proof {
                    assert(self@ =~= before.push(all[n]));
                }
            }
            proof {
                n = n + 1;
            }
        }
        proof {
            assert(all.take(all.len() as int) =~= all);
        }
    }
}

} // verus!
