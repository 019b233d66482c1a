//! The mathematical model of the client: its state, its invariant, and what
//! each operation makes of a state.

use crate::input_history::networked_history::{
    lemma_repredicted_extends, lemma_repredicted_predicts, predicted_at, repredicted,
    PredictionResult,
};
use crate::input_history::{HistoryView, Slot};
use crate::netcode::{Packet, PlayerHandle, PlayerType, RollbackableGameState};
use vstd::prelude::*;

verus! {

/// The mathematical model of a registered player.
pub struct PlayerView<I> {
    pub id: usize,
    pub kind: PlayerType,
    pub history: HistoryView<I>,
    /// The expected transit time of the player's packets, in frames.
    pub delay: usize,
}

/// The mathematical model of the client.
pub struct ClientView<I, S> {
    /// The players, in registration order.
    pub players: Seq<PlayerView<I>>,
    /// The next frame that the simulation will advance to.
    pub current_frame: usize,
    pub held_input_count: usize,
    /// The number of coming ticks on which the client will not advance.
    pub skip_frames: usize,
    /// The snapshots taken before frames that were advanced on a prediction.
    pub saved: Map<usize, S>,
    /// The frame to rewind to on the next tick, with its snapshot.
    pub rollback_to: Option<(usize, S)>,
    pub input_delay: usize,
    pub allowed_rollback: usize,
    pub packet_buffer_size: usize,
}

/// Some networked player of `players` holds a prediction for `frame`.
pub open spec fn any_predicted<I>(players: Seq<PlayerView<I>>, frame: nat) -> bool {
    exists|i: int|
        0 <= i < players.len() && (#[trigger] players[i]).kind is Net
            && players[i].history.is_predicted(frame)
}

/// Every player of `players` holds a canonical input for `frame`.
pub open spec fn all_canonical<I>(players: Seq<PlayerView<I>>, frame: nat) -> bool {
    forall|i: int| 0 <= i < players.len() ==> (#[trigger] players[i]).history.is_canonical(frame)
}

/// The number of ticks to pause on a packet sent on the frame `sent_on` that
/// takes `delay` frames to arrive, received at the frame `current`: the
/// number of frames by which the receiver is ahead.
pub open spec fn skip_for(current: int, sent_on: int, delay: int) -> int {
    if current > sent_on + delay {
        current - (sent_on + delay)
    } else {
        0
    }
}

/// One entry of the answer to a request: a local player's id, the frame of
/// the first slot that is handed out, and the slots.
pub struct Provided<I> {
    pub id: usize,
    pub first: nat,
    pub slots: Seq<Slot<I>>,
}

/// What the local players among `players` have to offer for `frame`: of each,
/// in registration order, the slot of that frame, or the last one where the
/// history ends before it, or the first one where it starts after it.
pub open spec fn provided<I>(players: Seq<PlayerView<I>>, frame: nat) -> Seq<Provided<I>>
    decreases players.len(),
{
    if players.len() == 0 {
        Seq::empty()
    } else {
        let rest = provided(players.drop_last(), frame);
        let p = players.last();
        if p.kind is Local {
            let f = if frame < p.history.front {
                p.history.front
            } else {
                frame
            };
            rest.push(
                Provided {
                    id: p.id,
                    first: p.history.window_first(f, 1),
                    slots: p.history.window(f, 1),
                },
            )
        } else {
            rest
        }
    }
}

/// Without a local player there is nothing to offer.
pub proof fn lemma_provided_without_locals<I>(players: Seq<PlayerView<I>>, frame: nat)
    requires
        forall|i: int| 0 <= i < players.len() ==> !((#[trigger] players[i]).kind is Local),
    ensures
        provided(players, frame).len() == 0,
    decreases players.len(),
{
    if players.len() > 0 {
        assert forall|i: int| 0 <= i < players.drop_last().len() implies !((
        #[trigger] players.drop_last()[i]).kind is Local) by {
            assert(!(players[i].kind is Local));
        }
        lemma_provided_without_locals(players.drop_last(), frame);
        assert(!(players[players.len() - 1].kind is Local));
    }
}

/// The values of the slots `slots`.
pub open spec fn slot_values<I>(slots: Seq<Slot<I>>) -> Seq<I> {
    Seq::new(slots.len(), |i: int| slots[i].value())
}

/// What the simulation is handed for `frame`: for each player the inputs of
/// the at most `held` frames that end at `frame`.
pub open spec fn input_windows<I>(players: Seq<PlayerView<I>>, frame: nat, held: nat) -> Seq<
    Seq<I>,
> {
    Seq::new(players.len(), |i: int| slot_values(players[i].history.window(frame, held)))
}

/// The simulation `g` after the frames `[from, to)` on the inputs of `players`.
pub open spec fn replayed<G: RollbackableGameState>(
    g: G,
    players: Seq<PlayerView<G::Input>>,
    from: nat,
    to: nat,
    held: nat,
) -> G
    decreases to - from,
{
    if from >= to {
        g
    } else {
        replayed(g, players, from, (to - 1) as nat, held).advanced(
            input_windows(players, (to - 1) as nat, held),
        )
    }
}

/// `after` has the players of `before`, with the predictions of the frames
/// `[from, to)` renewed in the networked histories.
pub open spec fn players_repredicted<I: Clone + Default + PartialEq>(
    before: Seq<PlayerView<I>>,
    after: Seq<PlayerView<I>>,
    from: nat,
    to: nat,
) -> bool {
    &&& same_players(before, after)
    &&& forall|i: int|
        0 <= i < before.len() ==> if before[i].kind is Net {
            repredicted(before[i].history, (#[trigger] after[i]).history, from, to)
        } else {
            after[i].history == before[i].history
        }
}

/// `after` has the players of `before`, with a prediction for `frame` in
/// each networked history that had nothing there.
pub open spec fn players_predicted<I: Clone + Default + PartialEq>(
    before: Seq<PlayerView<I>>,
    after: Seq<PlayerView<I>>,
    frame: nat,
) -> bool {
    &&& same_players(before, after)
    &&& forall|i: int|
        0 <= i < before.len() ==> if before[i].kind is Net {
            predicted_at(before[i].history, (#[trigger] after[i]).history, frame)
        } else {
            after[i].history == before[i].history
        }
}

/// The players with the slots before `target` dropped from every history.
pub open spec fn players_cleaned<I>(players: Seq<PlayerView<I>>, target: nat) -> Seq<
    PlayerView<I>,
> {
    Seq::new(players.len(), |i: int| players[i].with_history(players[i].history.cleaned(target)))
}

/// Every history starts at or before `frame` and has no empty slot up to it.
pub open spec fn windows_filled<I>(players: Seq<PlayerView<I>>, frame: nat) -> bool {
    forall|i: int|
        0 <= i < players.len() ==> (#[trigger] players[i]).history.front <= frame && forall|
            f: nat,
        |
            players[i].history.contains(f) && f <= frame ==> !(
            #[trigger] players[i].history.slot(f) is Empty)
}

/// `m` is the earliest frame with a snapshot.
pub open spec fn is_oldest<S>(saved: Map<usize, S>, m: usize) -> bool {
    saved.contains_key(m) && forall|j: usize| saved.contains_key(j) ==> m <= j
}

/// The snapshots after the frames `[from, to)` were replayed from the state
/// `g`: before each frame for which a player holds a prediction, the state
/// is saved anew.
pub open spec fn resaved<G: RollbackableGameState>(
    saved: Map<usize, G::SavedState>,
    g: G,
    players: Seq<PlayerView<G::Input>>,
    from: nat,
    to: nat,
    held: nat,
) -> Map<usize, G::SavedState> {
    Map::new(
        |f: usize| saved.contains_key(f) || (from <= f < to && any_predicted(players, f as nat)),
        |f: usize|
            if from <= f < to && any_predicted(players, f as nat) {
                replayed(g, players, from, f as nat, held).saved()
            } else {
                saved[f]
            },
    )
}

/// Players that hand out the same inputs for every frame of `[from, to)`
/// lead the simulation to the same state.
pub proof fn lemma_replayed_agrees<G: RollbackableGameState>(
    g: G,
    p: Seq<PlayerView<G::Input>>,
    q: Seq<PlayerView<G::Input>>,
    from: nat,
    to: nat,
    held: nat,
)
    requires
        forall|f: nat|
            from <= f < to ==> #[trigger] input_windows(p, f, held) == input_windows(q, f, held),
    ensures
        replayed(g, p, from, to, held) == replayed(g, q, from, to, held),
    decreases to - from,
{
    if from < to {
        lemma_replayed_agrees(g, p, q, from, (to - 1) as nat, held);
        assert(input_windows(p, (to - 1) as nat, held) == input_windows(q, (to - 1) as nat, held));
    }
}

/// Players whose histories have one extent and agree on the frames up to
/// `frame` hand out the same inputs for it.
pub proof fn lemma_input_windows_agree<I>(
    p: Seq<PlayerView<I>>,
    q: Seq<PlayerView<I>>,
    frame: nat,
    held: nat,
)
    requires
        p.len() == q.len(),
        forall|i: int|
            0 <= i < p.len() ==> {
                &&& (#[trigger] p[i]).history.front == q[i].history.front
                &&& p[i].history.slots.len() == q[i].history.slots.len()
                &&& p[i].history.front <= frame
                &&& forall|f: nat|
                    f <= frame ==> #[trigger] p[i].history.slot(f) == q[i].history.slot(f)
            },
    ensures
        input_windows(p, frame, held) == input_windows(q, frame, held),
{
    assert forall|i: int| 0 <= i < p.len() implies slot_values(
        p[i].history.window(frame, held),
    ) == slot_values(q[i].history.window(frame, held)) by {
        p[i].history.lemma_window_agrees(q[i].history, frame, held);
    }
    assert(input_windows(p, frame, held) =~= input_windows(q, frame, held));
}

/// Players that are settled at a frame after `frame`, with histories that
/// start at or before `frame`, have no empty slot up to `frame`.
pub proof fn lemma_windows_filled<I>(players: Seq<PlayerView<I>>, n: nat, frame: nat)
    requires
        frame < n,
        forall|i: int|
            0 <= i < players.len() ==> (#[trigger] players[i]).settled(n)
                && players[i].history.front <= frame,
    ensures
        windows_filled(players, frame),
{
    assert forall|i: int| 0 <= i < players.len() implies (#[trigger] players[i]).history.front
        <= frame && forall|f: nat|
        players[i].history.contains(f) && f <= frame ==> !(#[trigger] players[i].history.slot(
            f,
        ) is Empty) by {
        assert(players[i].settled(n));
    }
}

/// Renewed predictions leave it as it was whether a player holds a
/// prediction for a frame.
pub proof fn lemma_repredicted_any_predicted<I: Clone + Default + PartialEq>(
    p: Seq<PlayerView<I>>,
    q: Seq<PlayerView<I>>,
    from: nat,
    to: nat,
    k: nat,
)
    requires
        players_repredicted(p, q, from, to),
    ensures
        any_predicted(q, k) == any_predicted(p, k),
{
    assert forall|i: int| 0 <= i < p.len() implies (#[trigger] q[i]).history.slot(k).status()
        == p[i].history.slot(k).status() by {
        if p[i].kind is Net {
            lemma_repredicted_predicts(p[i].history, q[i].history, from, to, arbitrary());
        }
    }
    if any_predicted(p, k) {
        let i = choose|i: int|
            0 <= i < p.len() && (#[trigger] p[i]).kind is Net && p[i].history.is_predicted(k);
        assert(q[i].kind is Net && q[i].history.is_predicted(k));
    }
    if any_predicted(q, k) {
        let i = choose|i: int|
            0 <= i < q.len() && (#[trigger] q[i]).kind is Net && q[i].history.is_predicted(k);
        assert(p[i].kind is Net && p[i].history.is_predicted(k));
    }
}

/// Renewing the predictions of the frame `f` leaves the replay of the frames
/// before `f` as it was.
pub proof fn lemma_replay_prefix<
    I: Clone + Default + PartialEq,
    S,
    G: RollbackableGameState<Input = I, SavedState = S>,
>(g: G, p: Seq<PlayerView<I>>, q: Seq<PlayerView<I>>, from: nat, f: nat, held: nat, k: nat)
    requires
        players_repredicted(p, q, f, f + 1),
        forall|i: int| 0 <= i < p.len() ==> (#[trigger] p[i]).history.front <= from,
        from <= k <= f,
    ensures
        replayed(g, q, from, k, held) == replayed(g, p, from, k, held),
{
    assert forall|x: nat| from <= x < k implies #[trigger] input_windows(q, x, held)
        == input_windows(p, x, held) by {
        assert forall|i: int| 0 <= i < q.len() implies {
            &&& (#[trigger] q[i]).history.front == p[i].history.front
            &&& q[i].history.slots.len() == p[i].history.slots.len()
            &&& q[i].history.front <= x
            &&& forall|y: nat| y <= x ==> #[trigger] q[i].history.slot(y) == p[i].history.slot(y)
        } by {
            assert(p[i].history.front <= from);
            if p[i].kind is Net {
                assert(repredicted(p[i].history, q[i].history, f, f + 1));
            }
        }
        lemma_input_windows_agree(q, p, x, held);
    }
    lemma_replayed_agrees(g, q, p, from, k, held);
}

/// Renewing the predictions of one more frame extends a renewal.
pub proof fn lemma_players_repredicted_extend<I: Clone + Default + PartialEq>(
    before: Seq<PlayerView<I>>,
    mid: Seq<PlayerView<I>>,
    after: Seq<PlayerView<I>>,
    from: nat,
    to: nat,
)
    requires
        from <= to,
        players_repredicted(before, mid, from, to),
        players_repredicted(mid, after, to, to + 1),
    ensures
        players_repredicted(before, after, from, to + 1),
{
    assert forall|i: int| 0 <= i < before.len() implies if before[i].kind is Net {
        repredicted(before[i].history, (#[trigger] after[i]).history, from, to + 1)
    } else {
        after[i].history == before[i].history
    } by {
        assert(mid[i].kind == before[i].kind);
        if before[i].kind is Net {
            lemma_repredicted_extends(
                before[i].history,
                mid[i].history,
                after[i].history,
                from,
                to,
            );
        }
    }
}

impl<I> PlayerView<I> {
    /// The player's history fits the client at the frame `cur`. It starts at
    /// or before `cur` and ends within the machine's frame range. A local
    /// history holds canonical inputs only. A networked history has no empty
    /// slot before `cur` and no prediction at or after it.
    pub open spec fn settled(self, cur: nat) -> bool {
        &&& self.history.front <= cur
        &&& self.history.end() <= usize::MAX
        &&& self.kind is Local ==> forall|f: nat|
            self.history.contains(f) ==> #[trigger] self.history.slot(f) is Canonical
        &&& self.kind is Net ==> forall|f: nat|
            {
                &&& self.history.front <= f < cur ==> !(#[trigger] self.history.slot(f) is Empty)
                &&& f >= cur ==> !(self.history.slot(f) is Predicted)
            }
    }

    /// Every prediction of the player is covered: a snapshot is kept for its
    /// frame, or a rewind to its frame or an earlier one is pending.
    pub open spec fn covered(self, saved: Set<usize>, rewind: Option<usize>) -> bool {
        self.kind is Net ==> forall|f: nat| #[trigger]
            self.history.slot(f) is Predicted ==> saved.contains(f as usize) || (
            rewind matches Some(r) && r <= f)
    }

    /// The player with another history.
    pub open spec fn with_history(self, history: HistoryView<I>) -> Self {
        PlayerView { history, ..self }
    }
}

/// `after` has the players of `before`, with whatever histories.
pub open spec fn same_players<I>(before: Seq<PlayerView<I>>, after: Seq<PlayerView<I>>) -> bool {
    &&& after.len() == before.len()
    &&& forall|i: int|
        0 <= i < before.len() ==> (#[trigger] after[i]).id == before[i].id && after[i].kind
            == before[i].kind && after[i].delay == before[i].delay
}

impl<I, S> ClientView<I, S> {
    /// The client as it is made: no players, frame 0, an input delay of 1
    /// frame, an allowed rollback of 9 frames and 10 inputs to a packet.
    pub open spec fn initial(held_input_count: usize) -> Self {
        ClientView {
            players: Seq::empty(),
            current_frame: 0,
            held_input_count,
            skip_frames: 0,
            saved: Map::empty(),
            rollback_to: None,
            input_delay: 1,
            allowed_rollback: 9,
            packet_buffer_size: 10,
        }
    }

    /// The position of the player `id` in the table, or -1.
    pub open spec fn index_of(self, id: usize) -> int {
        if exists|i: int| 0 <= i < self.players.len() && (#[trigger] self.players[i]).id == id {
            choose|i: int| 0 <= i < self.players.len() && (#[trigger] self.players[i]).id == id
        } else {
            -1
        }
    }

    /// A player with the id `id` is registered.
    pub open spec fn is_registered(self, id: usize) -> bool {
        self.index_of(id) >= 0
    }

    /// The player `id` is registered as a local player.
    pub open spec fn is_local(self, id: usize) -> bool {
        self.is_registered(id) && self.players[self.index_of(id)].kind is Local
    }

    /// The player `id` is registered as a networked player.
    pub open spec fn is_net(self, id: usize) -> bool {
        self.is_registered(id) && self.players[self.index_of(id)].kind is Net
    }

    /// The history of the player `id`.
    pub open spec fn history(self, id: usize) -> HistoryView<I> {
        self.players[self.index_of(id)].history
    }

    /// The frame of the pending rewind.
    pub open spec fn rewind_frame(self) -> Option<usize> {
        match self.rollback_to {
            Some((frame, _)) => Some(frame),
            None => None,
        }
    }

    /// The client with a player `id` of kind `kind` registered after the
    /// others; unchanged where `id` is registered already.
    pub open spec fn with_player(self, id: usize, kind: PlayerType) -> Self {
        if self.is_registered(id) {
            self
        } else {
            ClientView {
                players: self.players.push(
                    PlayerView {
                        id,
                        kind,
                        history: HistoryView { front: 0, slots: Seq::empty() },
                        delay: 0,
                    },
                ),
                ..self
            }
        }
    }

    /// The client with the expected transit time of the player `id` set.
    pub open spec fn with_delay(self, id: usize, delay: usize) -> Self {
        let i = self.index_of(id);
        ClientView {
            players: self.players.update(i, PlayerView { delay, ..self.players[i] }),
            ..self
        }
    }

    /// The client with another history for the player `id`.
    pub open spec fn with_history(self, id: usize, history: HistoryView<I>) -> Self {
        let i = self.index_of(id);
        ClientView {
            players: self.players.update(i, self.players[i].with_history(history)),
            ..self
        }
    }

    /// The frame that a local input produced now is meant for.
    pub open spec fn delayed_frame(self) -> nat {
        (self.current_frame + self.input_delay) as nat
    }

    /// The client after the local player `id` produced the input `v`: the
    /// input is appended, unless the player has an input for the delayed
    /// frame already.
    pub open spec fn with_local_input(self, id: usize, v: I) -> Self {
        if self.history(id).is_canonical(self.delayed_frame()) {
            self
        } else {
            self.with_history(id, self.history(id).appended(v))
        }
    }

    /// No two players have the same id.
    pub open spec fn unique_ids(self) -> bool {
        forall|i: int, j: int|
            0 <= i < self.players.len() && 0 <= j < self.players.len() && (
            #[trigger] self.players[i]).id == (#[trigger] self.players[j]).id ==> i == j
    }

    /// All histories start at one frame.
    pub open spec fn aligned(self) -> bool {
        forall|i: int, j: int|
            0 <= i < self.players.len() && 0 <= j < self.players.len() ==> (
            #[trigger] self.players[i]).history.front == (#[trigger] self.players[j]).history.front
    }

    /// A pending rewind goes to a frame that was advanced already and that
    /// every history still covers.
    pub open spec fn rewind_in_range(self) -> bool {
        self.rollback_to matches Some((rb, _)) ==> {
            &&& rb < self.current_frame
            &&& forall|i: int|
                0 <= i < self.players.len() ==> (#[trigger] self.players[i]).history.front <= rb
        }
    }

    /// The frames whose outcome is open: those with a snapshot, and those for
    /// which a networked player holds a prediction.
    pub open spec fn open_frames(self) -> Set<usize> {
        Set::new(
            |f: usize| self.saved.contains_key(f) || any_predicted(self.players, f as nat),
        )
    }

    /// The client has no more open frames than the allowed rollback.
    pub open spec fn within_allowed(self) -> bool {
        self.open_frames().finite() && self.open_frames().len() <= self.allowed_rollback
    }

    /// Every snapshot is of a frame that was advanced already.
    pub open spec fn saved_in_past(self) -> bool {
        forall|f: usize| self.saved.contains_key(f) ==> f < self.current_frame
    }

    /// The invariant of the client.
    pub open spec fn wf(self) -> bool {
        &&& self.held_input_count >= 1
        &&& self.saved_in_past()
        &&& self.unique_ids()
        &&& self.aligned()
        &&& self.rewind_in_range()
        &&& forall|i: int|
            0 <= i < self.players.len() ==> (#[trigger] self.players[i]).settled(
                self.current_frame as nat,
            )
        &&& forall|i: int|
            0 <= i < self.players.len() ==> (#[trigger] self.players[i]).covered(
                self.saved.dom(),
                self.rewind_frame(),
            )
    }

    /// Among players with distinct ids, the player at `i` is the one that its
    /// id names.
    pub proof fn lemma_index_of(self, i: int)
        requires
            self.unique_ids(),
            0 <= i < self.players.len(),
        ensures
            self.index_of(self.players[i].id) == i,
            self.is_registered(self.players[i].id),
    {
    }

    /// An id that no player has is not registered.
    pub proof fn lemma_index_of_absent(self, id: usize)
        requires
            forall|i: int| 0 <= i < self.players.len() ==> (#[trigger] self.players[i]).id != id,
        ensures
            !self.is_registered(id),
    {
    }

    /// A client that differs from a well-formed one in its players' histories
    /// alone is well-formed, where the new histories start at one frame at or
    /// before a pending rewind, and each player is settled and covered.
    pub proof fn lemma_wf_from(self, before: Self)
        requires
            before.wf(),
            same_players(before.players, self.players),
            self.held_input_count == before.held_input_count,
            self.saved_in_past(),
            self.aligned(),
            self.rewind_in_range(),
            forall|i: int|
                0 <= i < self.players.len() ==> (#[trigger] self.players[i]).settled(
                    self.current_frame as nat,
                ),
            forall|i: int|
                0 <= i < self.players.len() ==> (#[trigger] self.players[i]).covered(
                    self.saved.dom(),
                    self.rewind_frame(),
                ),
        ensures
            self.wf(),
    {
        assert forall|i: int, j: int|
            0 <= i < self.players.len() && 0 <= j < self.players.len() && (
            #[trigger] self.players[i]).id == (#[trigger] self.players[j]).id implies i == j by {
            assert(before.players[i].id == before.players[j].id);
        }
    }

    /// Registration before the first frame keeps the invariant.
    pub proof fn lemma_with_player_wf(self, id: usize, kind: PlayerType)
        requires
            self.wf(),
            self.current_frame == 0,
        ensures
            self.with_player(id, kind).wf(),
    {
        let c = self.with_player(id, kind);
        if !self.is_registered(id) {
            let n = self.players.len() as int;
            assert forall|i: int, j: int|
                0 <= i < c.players.len() && 0 <= j < c.players.len() && (
                #[trigger] c.players[i]).id == (#[trigger] c.players[j]).id implies i == j by {
                if i < n && j < n {
                    assert(self.players[i].id == self.players[j].id);
                } else if i < n {
                    self.lemma_index_of(i);
                } else if j < n {
                    self.lemma_index_of(j);
                }
            }
            assert forall|i: int| 0 <= i < c.players.len() implies (
            #[trigger] c.players[i]).history.front == 0 by {
                if i < n {
                    assert(self.players[i].settled(0));
                }
            }
            assert forall|i: int| 0 <= i < c.players.len() implies (#[trigger] c.players[i]).settled(
                0,
            ) && c.players[i].covered(c.saved.dom(), c.rewind_frame()) by {
                if i < n {
                    assert(self.players[i].settled(0));
                    assert(self.players[i].covered(self.saved.dom(), self.rewind_frame()));
                }
            }
        }
    }

    /// Setting a transit time keeps the invariant.
    pub proof fn lemma_with_delay_wf(self, id: usize, delay: usize)
        requires
            self.wf(),
            self.is_registered(id),
        ensures
            self.with_delay(id, delay).wf(),
    {
        let c = self.with_delay(id, delay);
        assert forall|i: int| 0 <= i < c.players.len() implies (#[trigger] c.players[i]).id
            == self.players[i].id && c.players[i].kind == self.players[i].kind
            && c.players[i].history == self.players[i].history by {}
        assert forall|i: int, j: int|
            0 <= i < c.players.len() && 0 <= j < c.players.len() && (#[trigger] c.players[i]).id
                == (#[trigger] c.players[j]).id implies i == j by {
            assert(self.players[i].id == self.players[j].id);
        }
        assert forall|i: int, j: int| 0 <= i < c.players.len() && 0 <= j < c.players.len() implies (
        #[trigger] c.players[i]).history.front == (#[trigger] c.players[j]).history.front by {
            assert(self.players[i].history.front == self.players[j].history.front);
        }
        assert forall|i: int| 0 <= i < c.players.len() implies (#[trigger] c.players[i]).settled(
            c.current_frame as nat,
        ) && c.players[i].covered(c.saved.dom(), c.rewind_frame()) && (c.rollback_to matches Some(
            (rb, _),
        ) ==> c.players[i].history.front <= rb) by {
            assert(self.players[i].settled(self.current_frame as nat));
            assert(self.players[i].covered(self.saved.dom(), self.rewind_frame()));
        }
    }

    /// A history put in place of a player's own, with the same front, leaves
    /// the other players as they are and the histories aligned.
    pub proof fn lemma_with_history(self, id: usize, history: HistoryView<I>)
        requires
            self.unique_ids(),
            self.aligned(),
            self.is_registered(id),
            history.front == self.history(id).front,
        ensures
            same_players(self.players, self.with_history(id, history).players),
            self.with_history(id, history).aligned(),
            self.with_history(id, history).unique_ids(),
            self.with_history(id, history).index_of(id) == self.index_of(id),
            self.with_history(id, history).history(id) == history,
            forall|i: int|
                0 <= i < self.players.len() && i != self.index_of(id) ==> (
                #[trigger] self.with_history(id, history).players[i]) == self.players[i],
    {
        let c = self.with_history(id, history);
        let x = self.index_of(id);
        assert forall|i: int, j: int|
            0 <= i < c.players.len() && 0 <= j < c.players.len() && (#[trigger] c.players[i]).id
                == (#[trigger] c.players[j]).id implies i == j by {
            assert(self.players[i].id == self.players[j].id);
        }
        assert forall|i: int, j: int| 0 <= i < c.players.len() && 0 <= j < c.players.len() implies (
        #[trigger] c.players[i]).history.front == (#[trigger] c.players[j]).history.front by {
            assert(self.players[i].history.front == self.players[j].history.front);
            assert(self.players[x].history.front == self.players[j].history.front);
            assert(self.players[i].history.front == self.players[x].history.front);
        }
        assert(c.players[x].id == id);
        c.lemma_index_of(x);
    }

    /// A local input keeps the invariant.
    pub proof fn lemma_with_local_input_wf(self, id: usize, v: I)
        requires
            self.wf(),
            self.is_local(id),
            self.delayed_frame() < usize::MAX,
        ensures
            self.with_local_input(id, v).wf(),
            same_players(self.players, self.with_local_input(id, v).players),
            !self.history(id).is_canonical(self.delayed_frame()) ==> self.history(id).end()
                <= self.delayed_frame(),
    {
        let c = self.with_local_input(id, v);
        let x = self.index_of(id);
        let h = self.history(id);
        assert(self.players[x].settled(self.current_frame as nat));
        if !h.is_canonical(self.delayed_frame()) {
            if h.contains(self.delayed_frame()) {
                assert(h.slot(self.delayed_frame()) is Canonical);
            }
            h.lemma_appended(v);
            self.lemma_with_history(id, h.appended(v));
            assert forall|i: int| 0 <= i < c.players.len() implies (#[trigger] c.players[i]).settled(
                c.current_frame as nat,
            ) && c.players[i].covered(c.saved.dom(), c.rewind_frame()) && (
            c.rollback_to matches Some((rb, _)) ==> c.players[i].history.front <= rb) by {
                assert(self.players[i].settled(self.current_frame as nat));
                assert(self.players[i].covered(self.saved.dom(), self.rewind_frame()));
                if i == x {
                    assert forall|f: nat| c.players[i].history.contains(f) implies #[trigger]
                        c.players[i].history.slot(f) is Canonical by {
                        if f != h.end() {
                            assert(h.contains(f));
                        }
                    }
                }
            }
            c.lemma_wf_from(self);
        }
    }
}

impl<I: Clone + Default + PartialEq, S> ClientView<I, S> {
    /// The client after the input `v` of the networked player `id` arrived
    /// for `frame`.
    ///
    /// An input for a frame that the history has dropped changes nothing.
    /// Else the history takes the input. Where it confirms a prediction and
    /// no player holds a prediction for the frame any more, the frame's
    /// snapshot is dropped. Where it refutes a prediction, the frame's
    /// snapshot becomes the pending rewind, unless a rewind to that frame or
    /// an earlier one is pending already.
    pub open spec fn with_net_input(self, frame: usize, v: I, id: usize) -> Self {
        let h = self.history(id);
        if frame < h.front {
            self
        } else {
            let c = self.with_history(id, h.with_input(frame as nat, v));
            match h.prediction_result(frame as nat, v) {
                PredictionResult::Unpredicted => c,
                PredictionResult::Correct => if any_predicted(c.players, frame as nat) {
                    c
                } else {
                    ClientView { saved: self.saved.remove(frame), ..c }
                },
                PredictionResult::Wrong => ClientView {
                    saved: self.saved.remove(frame),
                    rollback_to: if self.saved.contains_key(frame) && (
                    self.rollback_to matches Some((rb, _)) ==> rb > frame) {
                        Some((frame, self.saved[frame]))
                    } else {
                        self.rollback_to
                    },
                    ..c
                },
            }
        }
    }

    /// The client after the inputs `values` of the networked player `id`
    /// arrived for the frames from `start` on, one after the other.
    pub open spec fn with_net_inputs(self, start: usize, values: Seq<I>, id: usize) -> Self
        decreases values.len(),
    {
        if values.len() == 0 {
            self
        } else {
            self.with_net_inputs(start, values.drop_last(), id).with_net_input(
                (start + values.len() - 1) as usize,
                values.last(),
                id,
            )
        }
    }

    /// The client after the entries of a `Provide` packet arrived, one after
    /// the other.
    pub open spec fn with_provided(self, entries: Seq<(PlayerHandle, usize, Vec<I>)>) -> Self
        decreases entries.len(),
    {
        if entries.len() == 0 {
            self
        } else {
            self.with_provided(entries.drop_last()).with_net_inputs(
                entries.last().1,
                entries.last().2@,
                entries.last().0.0,
            )
        }
    }

    /// The entries name networked players and frames of the machine's range.
    pub open spec fn accepts_provided(self, entries: Seq<(PlayerHandle, usize, Vec<I>)>) -> bool {
        forall|k: int|
            0 <= k < entries.len() ==> self.is_net((#[trigger] entries[k]).0.0) && entries[k].1
                + entries[k].2@.len() <= usize::MAX
    }

    /// The packet names networked players and frames of the machine's range.
    pub open spec fn accepts(self, packet: Packet<I>) -> bool {
        match packet {
            Packet::Inputs(sender, _, start, values) => self.is_net(sender.0) && start
                + values@.len() <= usize::MAX,
            Packet::Request(_) => true,
            Packet::Provide(entries) => self.accepts_provided(entries@),
        }
    }

    /// The client after a packet arrived. A batch of inputs sets the number
    /// of ticks to pause, by the frame it was sent on, and hands over its
    /// inputs; an answer hands over its inputs; a request changes nothing.
    pub open spec fn with_packet(self, packet: Packet<I>) -> Self {
        match packet {
            Packet::Inputs(sender, sent_on, start, values) => (ClientView {
                skip_frames: skip_for(
                    self.current_frame as int,
                    sent_on as int,
                    self.players[self.index_of(sender.0)].delay as int,
                ) as usize,
                ..self
            }).with_net_inputs(start, values@, sender.0),
            Packet::Request(_) => self,
            Packet::Provide(entries) => self.with_provided(entries@),
        }
    }

    /// An arriving input keeps the invariant, the players and the fronts of
    /// their histories.
    pub proof fn lemma_with_net_input_wf(self, frame: usize, v: I, id: usize)
        requires
            self.wf(),
            self.is_net(id),
            frame < usize::MAX,
        ensures
            self.with_net_input(frame, v, id).wf(),
            self.with_net_input(frame, v, id).is_net(id),
            same_players(self.players, self.with_net_input(frame, v, id).players),
            self.with_net_input(frame, v, id).current_frame == self.current_frame,
            forall|i: int|
                0 <= i < self.players.len() ==> (#[trigger] self.with_net_input(
                    frame,
                    v,
                    id,
                ).players[i]).history.front == self.players[i].history.front,
    {
        let x = self.index_of(id);
        let h = self.history(id);
        let r = self.with_net_input(frame, v, id);
        let cur = self.current_frame as nat;
        if frame >= h.front {
            let h2 = h.with_input(frame as nat, v);
            h.lemma_with_input(frame as nat, v);
            self.lemma_with_history(id, h2);
            let c = self.with_history(id, h2);
            assert(r.players == c.players);
            assert(self.players[x].settled(cur));
            assert forall|i: int| 0 <= i < r.players.len() implies (#[trigger] r.players[i]).settled(
                cur,
            ) by {
                assert(self.players[i].settled(cur));
                if i == x {
                    assert forall|f: nat|
                        {
                            &&& h2.front <= f < cur ==> !(#[trigger] h2.slot(f) is Empty)
                            &&& f >= cur ==> !(h2.slot(f) is Predicted)
                        } by {
                        if f != frame {
                            assert(h2.slot(f) == h.slot(f));
                        }
                    }
                }
            }
            assert forall|i: int| 0 <= i < r.players.len() implies (#[trigger] r.players[i]).covered(
                r.saved.dom(),
                r.rewind_frame(),
            ) by {
                assert(self.players[i].covered(self.saved.dom(), self.rewind_frame()));
                if r.players[i].kind is Net {
                    assert forall|f: nat| #[trigger]
                        r.players[i].history.slot(f) is Predicted implies r.saved.dom().contains(
                        f as usize,
                    ) || (r.rewind_frame() matches Some(rb) && rb <= f) by {
                        if i == x {
                            assert(f != frame);
                            assert(h2.slot(f) == h.slot(f));
                        }
                        assert(self.players[i].history.slot(f) is Predicted);
                        assert(self.players[i].settled(cur));
                        assert(f < cur);
                        if f == frame {
                            assert(c.players[i].history.is_predicted(frame as nat));
                            assert(any_predicted(c.players, frame as nat));
                        }
                    }
                }
            }
            assert(r.rewind_in_range()) by {
                if r.rollback_to != self.rollback_to {
                    assert(h.slot(frame as nat) is Predicted);
                    assert(frame < cur);
                    assert forall|i: int| 0 <= i < r.players.len() implies (
                    #[trigger] r.players[i]).history.front <= frame by {
                        assert(self.players[i].history.front == self.players[x].history.front);
                    }
                } else if r.rollback_to is Some {
                    assert forall|i: int| 0 <= i < r.players.len() implies (
                    #[trigger] r.players[i]).history.front <= r.rollback_to.unwrap().0 by {
                        assert(self.players[i].history.front <= self.rollback_to.unwrap().0);
                    }
                }
            }
            assert(r.aligned());
            r.lemma_wf_from(self);
            r.lemma_index_of(x);
        }
    }

    /// A run of arriving inputs keeps the invariant, the players and the
    /// fronts of their histories.
    pub proof fn lemma_with_net_inputs_wf(self, start: usize, values: Seq<I>, id: usize)
        requires
            self.wf(),
            self.is_net(id),
            start + values.len() <= usize::MAX,
        ensures
            self.with_net_inputs(start, values, id).wf(),
            self.with_net_inputs(start, values, id).is_net(id),
            same_players(self.players, self.with_net_inputs(start, values, id).players),
            self.with_net_inputs(start, values, id).current_frame == self.current_frame,
            forall|i: int|
                0 <= i < self.players.len() ==> (#[trigger] self.with_net_inputs(
                    start,
                    values,
                    id,
                ).players[i]).history.front == self.players[i].history.front,
        decreases values.len(),
    {
        if values.len() > 0 {
            let mid = self.with_net_inputs(start, values.drop_last(), id);
            self.lemma_with_net_inputs_wf(start, values.drop_last(), id);
            mid.lemma_with_net_input_wf((start + values.len() - 1) as usize, values.last(), id);
        }
    }

    /// Whether a player is networked depends on the players alone.
    pub proof fn lemma_is_net_same_players(self, after: Self, id: usize)
        requires
            self.unique_ids(),
            same_players(self.players, after.players),
        ensures
            after.is_net(id) == self.is_net(id),
            after.is_registered(id) ==> after.index_of(id) == self.index_of(id),
    {
        if self.is_registered(id) {
            let i = self.index_of(id);
            assert(after.players[i].id == id);
        }
        if after.is_registered(id) {
            let i = after.index_of(id);
            assert(self.players[i].id == id);
            assert(after.players[self.index_of(id)].id == id);
            assert(self.players[after.index_of(id)].id == self.players[self.index_of(id)].id);
        }
    }

    /// The entries of an answer keep the invariant, the players and the
    /// fronts of their histories.
    pub proof fn lemma_with_provided_wf(self, entries: Seq<(PlayerHandle, usize, Vec<I>)>)
        requires
            self.wf(),
            self.accepts_provided(entries),
        ensures
            self.with_provided(entries).wf(),
            same_players(self.players, self.with_provided(entries).players),
            self.with_provided(entries).current_frame == self.current_frame,
            forall|i: int|
                0 <= i < self.players.len() ==> (#[trigger] self.with_provided(
                    entries,
                ).players[i]).history.front == self.players[i].history.front,
        decreases entries.len(),
    {
        if entries.len() > 0 {
            let mid = self.with_provided(entries.drop_last());
            assert forall|k: int| 0 <= k < entries.drop_last().len() implies self.is_net(
                (#[trigger] entries.drop_last()[k]).0.0,
            ) && entries.drop_last()[k].1 + entries.drop_last()[k].2@.len() <= usize::MAX by {
                assert(self.is_net(entries[k].0.0));
            }
            self.lemma_with_provided_wf(entries.drop_last());
            let e = entries.last();
            assert(self.is_net(entries[entries.len() - 1].0.0));
            self.lemma_is_net_same_players(mid, e.0.0);
            mid.lemma_with_net_inputs_wf(e.1, e.2@, e.0.0);
        }
    }
}

impl<I, S> ClientView<I, S> {
    /// `after` has the settings of the client.
    pub open spec fn same_settings(self, after: Self) -> bool {
        &&& after.held_input_count == self.held_input_count
        &&& after.input_delay == self.input_delay
        &&& after.allowed_rollback == self.allowed_rollback
        &&& after.packet_buffer_size == self.packet_buffer_size
    }

    /// The frame before which the histories are cleaned: the frames that the
    /// simulation is handed, and those that a rewind may reach, are kept.
    pub open spec fn clean_target(self) -> nat {
        if self.current_frame >= self.held_input_count + self.allowed_rollback {
            (self.current_frame - self.held_input_count - self.allowed_rollback) as nat
        } else {
            0
        }
    }

    /// The number of frames that the client is ahead of its earliest snapshot.
    pub open spec fn backlog(self) -> nat {
        if exists|m: usize| is_oldest(self.saved, m) {
            let m = choose|m: usize| is_oldest(self.saved, m);
            if self.current_frame >= m {
                (self.current_frame - m) as nat
            } else {
                0
            }
        } else {
            0
        }
    }

    /// The client may advance on a prediction: it is less than the allowed
    /// rollback ahead of its earliest snapshot, and past the first frames.
    pub open spec fn may_speculate(self) -> bool {
        self.backlog() < self.allowed_rollback && self.current_frame > self.allowed_rollback
    }

    /// Up to the allowed rollback, the client never advances on a prediction.
    pub proof fn lemma_no_speculation_at_start(self)
        requires
            self.current_frame <= self.allowed_rollback,
        ensures
            !self.may_speculate(),
    {
    }
}

/// The client `c` and the simulation `g` after a pending rewind was carried
/// out: the simulation is set back to the snapshot and led through the
/// frames up to the current one again, on predictions renewed frame by frame.
/// Without a pending rewind nothing changes.
pub open spec fn rewound<
    I: Clone + Default + PartialEq,
    S,
    G: RollbackableGameState<Input = I, SavedState = S>,
>(c: ClientView<I, S>, g: G, c2: ClientView<I, S>, g2: G) -> bool {
    let cur = c.current_frame as nat;
    let held = c.held_input_count as nat;
    &&& c.same_settings(c2)
    &&& c2.current_frame == c.current_frame
    &&& c2.skip_frames == c.skip_frames
    &&& c2.rollback_to is None
    &&& match c.rollback_to {
        None => c2.players == c.players && c2.saved == c.saved && g2 == g,
        Some((rb, state)) => {
            &&& players_repredicted(c.players, c2.players, rb as nat, cur)
            &&& c2.saved == resaved(c.saved, G::loaded(state), c2.players, rb as nat, cur, held)
            &&& g2 == replayed(G::loaded(state), c2.players, rb as nat, cur, held)
        },
    }
}

/// The client `c` and the simulation `g` after one tick without a pending
/// rewind. The client pauses while it has ticks to skip. Else it advances
/// where every player has a canonical input for the current frame, after
/// cleaning the histories on every frame that the held input count divides.
/// Else it saves the state, predicts the missing inputs and advances, where
/// it may. Else it stays and asks for the inputs of the current frame.
pub open spec fn stepped<
    I: Clone + Default + PartialEq,
    S,
    G: RollbackableGameState<Input = I, SavedState = S>,
>(c: ClientView<I, S>, g: G, c2: ClientView<I, S>, g2: G, reply: Option<Packet<I>>) -> bool {
    let cur = c.current_frame as nat;
    let held = c.held_input_count as nat;
    &&& c.same_settings(c2)
    &&& c2.rollback_to == c.rollback_to
    &&& if c.skip_frames > 0 {
        &&& c2.skip_frames == c.skip_frames - 1
        &&& c2.players == c.players
        &&& c2.current_frame == c.current_frame
        &&& c2.saved == c.saved
        &&& g2 == g
        &&& reply is None
    } else if all_canonical(c.players, cur) {
        &&& c2.skip_frames == 0
        &&& c2.players == if cur % held == 0 {
            players_cleaned(c.players, c.clean_target())
        } else {
            c.players
        }
        &&& c2.current_frame == cur + 1
        &&& c2.saved == c.saved
        &&& g2 == g.advanced(input_windows(c2.players, cur, held))
        &&& reply is None
    } else if c.may_speculate() {
        &&& c2.skip_frames == 0
        &&& players_predicted(c.players, c2.players, cur)
        &&& c2.current_frame == cur + 1
        &&& c2.saved == c.saved.insert(c.current_frame, g.saved())
        &&& g2 == g.advanced(input_windows(c2.players, cur, held))
        &&& reply is None
    } else {
        &&& c2.skip_frames == 0
        &&& c2.players == c.players
        &&& c2.current_frame == c.current_frame
        &&& c2.saved == c.saved
        &&& g2 == g
        &&& reply matches Some(Packet::Request(f))
        &&& f == c.current_frame
    }
}

/// The client `c` and the simulation `g` after one tick: a pending rewind is
/// carried out, then the client pauses, advances or asks.
pub open spec fn updated<
    I: Clone + Default + PartialEq,
    S,
    G: RollbackableGameState<Input = I, SavedState = S>,
>(c: ClientView<I, S>, g: G, c2: ClientView<I, S>, g2: G, reply: Option<Packet<I>>) -> bool {
    exists|mid: ClientView<I, S>, gm: G|
        #[trigger] rewound(c, g, mid, gm) && #[trigger] stepped(mid, gm, c2, g2, reply)
}

/// Players of a well-formed client stay settled, with the fronts of their
/// histories, when predictions are renewed.
pub proof fn lemma_repredicted_settled<I: Clone + Default + PartialEq, S>(
    c: ClientView<I, S>,
    q: Seq<PlayerView<I>>,
    from: nat,
    to: nat,
)
    requires
        c.wf(),
        players_repredicted(c.players, q, from, to),
    ensures
        forall|i: int|
            0 <= i < q.len() ==> (#[trigger] q[i]).settled(c.current_frame as nat)
                && q[i].history.front == c.players[i].history.front,
{
    let cur = c.current_frame as nat;
    assert forall|i: int| 0 <= i < q.len() implies (#[trigger] q[i]).settled(cur)
        && q[i].history.front == c.players[i].history.front by {
        let p = c.players[i];
        assert(p.settled(cur));
        if p.kind is Net {
            assert(repredicted(p.history, q[i].history, from, to));
            lemma_repredicted_predicts(p.history, q[i].history, from, to, arbitrary());
            assert forall|f: nat|
                {
                    &&& q[i].history.front <= f < cur ==> !(#[trigger] q[i].history.slot(
                        f,
                    ) is Empty)
                    &&& f >= cur ==> !(q[i].history.slot(f) is Predicted)
                } by {
                assert(q[i].history.slot(f).status() == p.history.slot(f).status());
            }
        }
    }
}

/// A rewind keeps the invariant, the players and the fronts of their
/// histories, and leaves no rewind pending.
pub proof fn lemma_rewound_wf<
    I: Clone + Default + PartialEq,
    S,
    G: RollbackableGameState<Input = I, SavedState = S>,
>(c: ClientView<I, S>, g: G, c2: ClientView<I, S>, g2: G)
    requires
        c.wf(),
        rewound(c, g, c2, g2),
    ensures
        c2.wf(),
        c2.rollback_to is None,
        same_players(c.players, c2.players),
        forall|i: int|
            0 <= i < c.players.len() ==> (#[trigger] c2.players[i]).history.front
                == c.players[i].history.front,
{
    let cur = c.current_frame as nat;
    if c.rollback_to is Some {
        let rb = c.rollback_to.unwrap().0 as nat;
        assert forall|i: int| 0 <= i < c2.players.len() implies (#[trigger] c2.players[i]).settled(
            cur,
        ) && c2.players[i].covered(c2.saved.dom(), c2.rewind_frame())
            && c2.players[i].history.front == c.players[i].history.front by {
            let p = c.players[i];
            let q = c2.players[i];
            assert(p.settled(cur));
            assert(p.covered(c.saved.dom(), c.rewind_frame()));
            if p.kind is Net {
                assert(repredicted(p.history, q.history, rb, cur));
                lemma_repredicted_predicts(p.history, q.history, rb, cur, arbitrary());
                assert forall|f: nat|
                    {
                        &&& q.history.front <= f < cur ==> !(#[trigger] q.history.slot(f) is Empty)
                        &&& f >= cur ==> !(q.history.slot(f) is Predicted)
                    } by {
                    assert(q.history.slot(f).status() == p.history.slot(f).status());
                }
                assert forall|f: nat| #[trigger]
                    q.history.slot(f) is Predicted implies c2.saved.dom().contains(f as usize) by {
                    assert(q.history.slot(f).status() == p.history.slot(f).status());
                    assert(p.history.slot(f) is Predicted);
                    assert(f < cur);
                    assert(p.history.contains(f));
                    if !c.saved.dom().contains(f as usize) {
                        assert(rb <= f);
                        assert(q.history.is_predicted(f));
                        assert(any_predicted(c2.players, f));
                    }
                }
            }
        }
        assert forall|i: int, j: int| 0 <= i < c2.players.len() && 0 <= j < c2.players.len() implies (
        #[trigger] c2.players[i]).history.front == (#[trigger] c2.players[j]).history.front by {
            assert(c.players[i].history.front == c.players[j].history.front);
            assert(c2.players[i].settled(cur));
            assert(c2.players[j].settled(cur));
        }
        c2.lemma_wf_from(c);
    } else {
        assert forall|i: int| 0 <= i < c2.players.len() implies (#[trigger] c2.players[i]).settled(
            cur,
        ) && c2.players[i].covered(c2.saved.dom(), c2.rewind_frame()) by {
            assert(c.players[i].settled(cur));
            assert(c.players[i].covered(c.saved.dom(), c.rewind_frame()));
        }
        c2.lemma_wf_from(c);
    }
}

/// A tick without a pending rewind keeps the invariant and the players, and
/// moves no front back.
pub proof fn lemma_stepped_wf<
    I: Clone + Default + PartialEq,
    S,
    G: RollbackableGameState<Input = I, SavedState = S>,
>(c: ClientView<I, S>, g: G, c2: ClientView<I, S>, g2: G, reply: Option<Packet<I>>)
    requires
        c.wf(),
        c.rollback_to is None,
        c.current_frame < usize::MAX,
        stepped(c, g, c2, g2, reply),
    ensures
        c2.wf(),
        same_players(c.players, c2.players),
        c2.current_frame >= c.current_frame,
        forall|i: int|
            0 <= i < c.players.len() ==> (#[trigger] c2.players[i]).history.front
                >= c.players[i].history.front && c2.players[i].history.front
                <= c.current_frame,
{
    let cur = c.current_frame as nat;
    let held = c.held_input_count as nat;
    assert forall|i: int| 0 <= i < c.players.len() implies (#[trigger] c.players[i]).history.front
        <= cur by {
        assert(c.players[i].settled(cur));
    }
    if c.skip_frames > 0 {
        assert(c2.wf()) by {
            assert forall|i: int| 0 <= i < c2.players.len() implies (
            #[trigger] c2.players[i]).settled(cur) && c2.players[i].covered(
                c2.saved.dom(),
                c2.rewind_frame(),
            ) by {
                assert(c.players[i].settled(cur));
                assert(c.players[i].covered(c.saved.dom(), c.rewind_frame()));
            }
            c2.lemma_wf_from(c);
        }
    } else if all_canonical(c.players, cur) {
        let target = if cur % held == 0 {
            c.clean_target()
        } else {
            0
        };
        assert forall|i: int| 0 <= i < c.players.len() implies (#[trigger] c2.players[i])
            == c.players[i].with_history(c.players[i].history.cleaned(target)) by {
            c.players[i].history.lemma_cleaned(target);
        }
        assert forall|i: int| 0 <= i < c2.players.len() implies (#[trigger] c2.players[i]).settled(
            cur + 1,
        ) && c2.players[i].covered(c2.saved.dom(), c2.rewind_frame())
            && c2.players[i].history.front >= c.players[i].history.front
            && c2.players[i].history.front == if target > c.players[i].history.front {
            target
        } else {
            c.players[i].history.front
        } by {
            let p = c.players[i];
            let q = c2.players[i];
            p.history.lemma_cleaned(target);
            assert(p.settled(cur));
            assert(p.covered(c.saved.dom(), c.rewind_frame()));
            assert(p.history.is_canonical(cur));
            if p.kind is Local {
                assert forall|f: nat| q.history.contains(f) implies #[trigger] q.history.slot(
                    f,
                ) is Canonical by {
                    assert(q.history.slot(f) == p.history.slot(f));
                    assert(p.history.contains(f));
                }
            } else {
                assert forall|f: nat|
                    {
                        &&& q.history.front <= f < cur + 1 ==> !(#[trigger] q.history.slot(
                            f,
                        ) is Empty)
                        &&& f >= cur + 1 ==> !(q.history.slot(f) is Predicted)
                    } by {
                    if f >= target {
                        assert(q.history.slot(f) == p.history.slot(f));
                    }
                }
                assert forall|f: nat| #[trigger]
                    q.history.slot(f) is Predicted implies c2.saved.dom().contains(f as usize) by {
                    assert(q.history.slot(f) == p.history.slot(f));
                }
            }
        }
        assert forall|i: int, j: int| 0 <= i < c2.players.len() && 0 <= j < c2.players.len() implies (
        #[trigger] c2.players[i]).history.front == (#[trigger] c2.players[j]).history.front by {
            assert(c.players[i].history.front == c.players[j].history.front);
            assert(c2.players[i].settled(cur + 1));
            assert(c2.players[j].settled(cur + 1));
        }
        c2.lemma_wf_from(c);
    } else if c.may_speculate() {
        assert forall|i: int| 0 <= i < c2.players.len() implies (#[trigger] c2.players[i]).settled(
            cur + 1,
        ) && c2.players[i].covered(c2.saved.dom(), c2.rewind_frame())
            && c2.players[i].history.front == c.players[i].history.front by {
            let p = c.players[i];
            let q = c2.players[i];
            assert(p.settled(cur));
            assert(p.covered(c.saved.dom(), c.rewind_frame()));
            if p.kind is Net {
                assert(predicted_at(p.history, q.history, cur));
                if p.history.slot(cur) is Empty {
                    p.history.lemma_with_slot(cur, q.history.slot(cur));
                }
                assert forall|f: nat|
                    {
                        &&& q.history.front <= f < cur + 1 ==> !(#[trigger] q.history.slot(
                            f,
                        ) is Empty)
                        &&& f >= cur + 1 ==> !(q.history.slot(f) is Predicted)
                    } by {
                    if f != cur {
                        assert(q.history.slot(f) == p.history.slot(f));
                    }
                }
                assert forall|f: nat| #[trigger]
                    q.history.slot(f) is Predicted implies c2.saved.dom().contains(f as usize) by {
                    if f != cur {
                        assert(q.history.slot(f) == p.history.slot(f));
                    }
                }
            }
        }
        assert forall|i: int, j: int| 0 <= i < c2.players.len() && 0 <= j < c2.players.len() implies (
        #[trigger] c2.players[i]).history.front == (#[trigger] c2.players[j]).history.front by {
            assert(c.players[i].history.front == c.players[j].history.front);
            assert(c2.players[i].settled(cur + 1));
            assert(c2.players[j].settled(cur + 1));
        }
        c2.lemma_wf_from(c);
    } else {
        assert forall|i: int| 0 <= i < c2.players.len() implies (#[trigger] c2.players[i]).settled(
            cur,
        ) && c2.players[i].covered(c2.saved.dom(), c2.rewind_frame()) by {
            assert(c.players[i].settled(cur));
            assert(c.players[i].covered(c.saved.dom(), c.rewind_frame()));
        }
        c2.lemma_wf_from(c);
    }
}

} // verus!
