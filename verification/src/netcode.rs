//! The netcode client: the state machine that drives a simulation forward on
//! local and remote inputs.
//!
//! Once per tick the host hands over its local input, drains the packets that
//! arrived, and calls `update`. The client advances the simulation when every
//! player's input for the current frame is known, advances on a prediction
//! when it may, rewinds and replays when a prediction proved wrong, and
//! otherwise asks the peer for the missing input.

use crate::input_history::networked_history::{
    predicted_at, repredicted, NetworkedHistory, PredictionResult,
};
use crate::input_history::{slot_holds, InputHistory, Slot};
use crate::netcode::laws::{
    fronts_kept, lemma_fronts_kept_by_local_input, lemma_fronts_kept_by_packet,
    lemma_fronts_kept_by_update, lemma_snapshots_within_allowed, lemma_within_allowed_at_start,
    lemma_within_allowed_by_delay, lemma_within_allowed_by_local_input,
    lemma_within_allowed_by_net_input, lemma_within_allowed_by_packet,
    lemma_within_allowed_by_registration, lemma_within_allowed_by_update,
};
use crate::netcode::model::{
    all_canonical, any_predicted, input_windows, is_oldest, lemma_players_repredicted_extend,
    lemma_provided_without_locals, lemma_repredicted_any_predicted, lemma_repredicted_settled,
    lemma_replay_prefix, lemma_rewound_wf, lemma_stepped_wf, lemma_windows_filled,
    players_cleaned, players_predicted, players_repredicted, provided, replayed, resaved, rewound,
    skip_for, slot_values, stepped, updated, windows_filled, ClientView, PlayerView, Provided,
};
use std::collections::HashMap;
use vstd::prelude::*;
use vstd::std_specs::cmp::PartialEqSpec;
use vstd::std_specs::iter::IteratorSpec;

pub mod laws;
pub mod model;

verus! {

/// Whether a player's inputs are produced here or arrive from a peer.
#[derive(Clone, Copy, Debug, PartialEq, Eq, Structural)]
pub enum PlayerType {
    Local,
    Net,
}

/// Names a registered player.
#[derive(Clone, Copy, Debug, Hash, PartialEq, Eq, Structural)]
pub struct PlayerHandle(pub usize);

impl PlayerHandle {
    /// The index that the player was registered with.
    pub fn id(&self) -> (id: usize)
        ensures
            id == self.0,
    {
        self.0
    }
}

/// The inputs of one frame: one slice per player, in registration order. Each
/// slice ends with the player's input for the frame and holds the inputs of
/// the frames before it, as far as they are kept.
pub struct InputSet<'a, Input> {
    pub inputs: Vec<&'a [Input]>,
}

impl<'a, Input> View for InputSet<'a, Input> {
    type V = Seq<Seq<Input>>;

    open spec fn view(&self) -> Seq<Seq<Input>> {
        Seq::new(self.inputs@.len(), |i: int| self.inputs@[i]@)
    }
}

/// What peers send each other.
#[derive(Debug, Clone)]
pub enum Packet<Input> {
    /// The sender's handle, the frame it was sent on, the frame of the first
    /// input, and the sender's latest inputs from that frame on.
    Inputs(PlayerHandle, usize, usize, Vec<Input>),
    /// Asks for the local inputs of a frame.
    Request(usize),
    /// For each local player of the sender: its handle, the frame of the first
    /// input, and inputs from that frame on.
    Provide(Vec<(PlayerHandle, usize, Vec<Input>)>),
}

/// A simulation that the client can drive, snapshot and rewind.
///
/// The simulation is deterministic: the state after a frame is a function of
/// the state before it and the frame's inputs. A snapshot holds everything
/// that can affect later frames: loading the snapshot of a state gives that
/// state back.
pub trait RollbackableGameState: Sized {
    type Input;

    type SavedState;

    /// The state after one frame on `inputs`.
    spec fn advanced(&self, inputs: Seq<Seq<Self::Input>>) -> Self;

    /// The snapshot of the state.
    spec fn saved(&self) -> Self::SavedState;

    /// The state that a snapshot restores.
    spec fn loaded(load: Self::SavedState) -> Self;

    /// Loading the snapshot of a state gives the state back.
    proof fn lemma_load_saved(&self)
        ensures
            Self::loaded(self.saved()) == *self,
    ;

    /// Consumes one frame of inputs.
    fn advance_frame(&mut self, input: InputSet<'_, Self::Input>)
        ensures
            *final(self) == old(self).advanced(input@),
    ;

    /// Takes a snapshot.
    fn save_state(&self) -> (s: Self::SavedState)
        ensures
            s == self.saved(),
    ;

    /// Replaces the state with the one of the snapshot.
    fn load_state(&mut self, load: Self::SavedState)
        ensures
            *final(self) == Self::loaded(load),
    ;
}

/// The inputs of one player.
enum PlayerHistory<I> {
    Local(InputHistory<I>),
    Net(NetworkedHistory<I>),
}

/// A registered player.
struct Player<I> {
    id: PlayerHandle,
    history: PlayerHistory<I>,
    network_delay: usize,
}

impl<I> View for Player<I> {
    type V = PlayerView<I>;

    closed spec fn view(&self) -> PlayerView<I> {
        PlayerView {
            id: self.id.0,
            kind: match self.history {
                PlayerHistory::Local(_) => PlayerType::Local,
                PlayerHistory::Net(_) => PlayerType::Net,
            },
            history: match self.history {
                PlayerHistory::Local(h) => h@,
                PlayerHistory::Net(h) => h@,
            },
            delay: self.network_delay,
        }
    }
}

impl<I: Clone + Default + PartialEq> Player<I> {
    closed spec fn wf(&self) -> bool {
        match self.history {
            PlayerHistory::Local(h) => h.wf(),
            PlayerHistory::Net(h) => h.wf(),
        }
    }
}

/// The models of the players of a table.
closed spec fn players_view<I>(players: Seq<Player<I>>) -> Seq<PlayerView<I>> {
    Seq::new(players.len(), |i: int| players[i]@)
}

/// Every player of the table is soundly represented.
closed spec fn players_wf<I: Clone + Default + PartialEq>(players: Seq<Player<I>>) -> bool {
    forall|i: int| 0 <= i < players.len() ==> (#[trigger] players[i]).wf()
}

/// `values` holds a clone of the input of each slot of `slots`.
pub open spec fn clones_of<I: Clone>(slots: Seq<Slot<I>>, values: Seq<I>) -> bool {
    &&& values.len() == slots.len()
    &&& forall|i: int| 0 <= i < slots.len() ==> cloned(slots[i].value(), #[trigger] values[i])
}

/// `reply` answers a request with `entries`: nothing where there is no entry,
/// else one entry of the packet for each, with clones of its inputs.
pub open spec fn provides<I: Clone>(reply: Option<Packet<I>>, entries: Seq<Provided<I>>) -> bool {
    if entries.len() == 0 {
        reply is None
    } else {
        &&& reply matches Some(Packet::Provide(list))
        &&& list@.len() == entries.len()
        &&& forall|k: int|
            0 <= k < entries.len() ==> (#[trigger] list@[k]).0.0 == entries[k].id && list@[k].1
                == entries[k].first && clones_of(entries[k].slots, list@[k].2@)
    }
}

/// Clones the entries of a slice into a vector.
fn clone_slice<I: Clone>(slice: &[I]) -> (out: Vec<I>)
    ensures
        out@.len() == slice@.len(),
        forall|i: int| 0 <= i < slice@.len() ==> cloned(slice@[i], #[trigger] out@[i]),
{
    let mut out: Vec<I> = Vec::new();
    let mut i: usize = 0;
    while i < slice.len()
        invariant
            i <= slice@.len(),
            out@.len() == i,
            forall|k: int| 0 <= k < i ==> cloned(slice@[k], #[trigger] out@[k]),
        decreases slice@.len() - i,
    {
        out.push(slice[i].clone());
        i = i + 1;
    }
    out
}

/// Whether every player holds a canonical input for `frame`.
fn all_have_input<I: Clone + Default + PartialEq>(players: &Vec<Player<I>>, frame: usize) -> (b:
    bool)
    requires
        players_wf(players@),
    ensures
        b == all_canonical(players_view(players@), frame as nat),
{
    let mut i: usize = 0;
    while i < players.len()
        invariant
            players_wf(players@),
            i <= players@.len(),
            forall|k: int|
                0 <= k < i ==> (#[trigger] players_view(players@)[k]).history.is_canonical(
                    frame as nat,
                ),
        decreases players@.len() - i,
    {
        assert(players@[i as int].wf());
        let present = match &players[i].history {
            PlayerHistory::Local(local_player) => local_player.has_input(frame),
            PlayerHistory::Net(net_player) => net_player.has_input(frame),
        };
        if !present {
            assert(!players_view(players@)[i as int].history.is_canonical(frame as nat));
            return false;
        }
        i = i + 1;
    }
    true
}

/// The inputs of `frame` for the simulation: of each player the at most
/// `held` inputs that end at `frame`.
fn input_set<I: Clone + Default + PartialEq>(players: &Vec<Player<I>>, frame: usize, held: usize) -> (set:
    InputSet<'_, I>)
    requires
        players_wf(players@),
        windows_filled(players_view(players@), frame as nat),
    ensures
        set@ == input_windows(players_view(players@), frame as nat, held as nat),
{
    let mut inputs: Vec<&[I]> = Vec::new();
    let mut i: usize = 0;
    while i < players.len()
        invariant
            players_wf(players@),
            windows_filled(players_view(players@), frame as nat),
            i <= players@.len(),
            inputs@.len() == i,
            forall|k: int|
                0 <= k < i ==> (#[trigger] inputs@[k])@ == slot_values(
                    players_view(players@)[k].history.window(frame as nat, held as nat),
                ),
        decreases players@.len() - i,
    {
        assert(players@[i as int].wf());
        let ghost h = players_view(players@)[i as int].history;
        assert(h.front <= frame);
        let slice = match &players[i].history {
            PlayerHistory::Local(local_player) => local_player.get_inputs(frame, held).1,
            PlayerHistory::Net(net_player) => net_player.get_inputs(frame, held).1,
        };
        proof {
            h.lemma_window(frame as nat, held as nat);
            let w = h.window(frame as nat, held as nat);
            assert forall|k: int| 0 <= k < w.len() implies slice@[k] == #[trigger] w[k].value() by {
                let f = (h.window_first(frame as nat, held as nat) + k) as nat;
                assert(w[k] == h.slot(f));
                assert(h.contains(f) && f <= frame);
                assert(!(h.slot(f) is Empty));
                assert(slot_holds(w[k], slice@[k]));
            }
            assert(slice@ =~= slot_values(w));
        }
        inputs.push(slice);
        i = i + 1;
    }
    let set = InputSet { inputs };
    proof {
        assert(set@ =~= input_windows(players_view(players@), frame as nat, held as nat));
    }
    set
}

/// Renews the predictions that the networked players hold for `frame`.
fn repredict_all<I: Clone + Default + PartialEq>(players: &mut Vec<Player<I>>, frame: usize)
    requires
        players_wf(old(players)@),
        frame < usize::MAX,
    ensures
        players_wf(final(players)@),
        players_repredicted(
            players_view(old(players)@),
            players_view(final(players)@),
            frame as nat,
            (frame + 1) as nat,
        ),
{
    let mut i: usize = 0;
    while i < players.len()
        invariant
            players@.len() == old(players)@.len(),
            players_wf(players@),
            frame < usize::MAX,
            i <= players@.len(),
            forall|k: int| i <= k < players@.len() ==> players@[k] == old(players)@[k],
            forall|k: int|
                0 <= k < i ==> {
                    let p = (#[trigger] old(players)@[k])@;
                    let q = players@[k]@;
                    &&& q.id == p.id && q.kind == p.kind && q.delay == p.delay
                    &&& if p.kind is Net {
                        repredicted(p.history, q.history, frame as nat, (frame + 1) as nat)
                    } else {
                        q.history == p.history
                    }
                },
        decreases players@.len() - i,
    {
        let ghost before = players@;
        assert(before[i as int].wf());
        match &mut players[i].history {
            PlayerHistory::Net(net_player) => {
                net_player.repredict(frame);
            },
            PlayerHistory::Local(_) => {},
        }
        proof {
            assert forall|k: int| 0 <= k < players@.len() implies (#[trigger] players@[k]).wf() by {
                if k != i {
                    assert(before[k].wf());
                }
            }
        }
        i = i + 1;
    }
}

/// Fills the slot of `frame` with a prediction in every networked history
/// that has nothing there.
fn predict_all<I: Clone + Default + PartialEq>(players: &mut Vec<Player<I>>, frame: usize)
    requires
        players_wf(old(players)@),
        frame < usize::MAX,
        forall|k: int|
            0 <= k < old(players)@.len() ==> (#[trigger] players_view(
                old(players)@,
            )[k]).history.front <= frame,
    ensures
        players_wf(final(players)@),
        players_predicted(
            players_view(old(players)@),
            players_view(final(players)@),
            frame as nat,
        ),
{
    let mut i: usize = 0;
    while i < players.len()
        invariant
            players@.len() == old(players)@.len(),
            players_wf(players@),
            frame < usize::MAX,
            i <= players@.len(),
            forall|k: int| i <= k < players@.len() ==> players@[k] == old(players)@[k],
            forall|k: int|
                0 <= k < old(players)@.len() ==> (#[trigger] players_view(
                    old(players)@,
                )[k]).history.front <= frame,
            forall|k: int|
                0 <= k < i ==> {
                    let p = (#[trigger] old(players)@[k])@;
                    let q = players@[k]@;
                    &&& q.id == p.id && q.kind == p.kind && q.delay == p.delay
                    &&& if p.kind is Net {
                        predicted_at(p.history, q.history, frame as nat)
                    } else {
                        q.history == p.history
                    }
                },
        decreases players@.len() - i,
    {
        let ghost before = players@;
        assert(before[i as int].wf());
        assert(players_view(old(players)@)[i as int].history.front <= frame);
        match &mut players[i].history {
            PlayerHistory::Net(net_player) => {
                if net_player.is_empty_input(frame) {
                    net_player.predict(frame);
                }
            },
            PlayerHistory::Local(_) => {},
        }
        proof {
            assert forall|k: int| 0 <= k < players@.len() implies (#[trigger] players@[k]).wf() by {
                if k != i {
                    assert(before[k].wf());
                }
            }
        }
        i = i + 1;
    }
}

/// Drops the slots before `target` from every history.
fn clean_all<I: Clone + Default + PartialEq>(players: &mut Vec<Player<I>>, target: usize)
    requires
        players_wf(old(players)@),
    ensures
        players_wf(final(players)@),
        players_view(final(players)@) == players_cleaned(
            players_view(old(players)@),
            target as nat,
        ),
{
    let mut i: usize = 0;
    while i < players.len()
        invariant
            players@.len() == old(players)@.len(),
            players_wf(players@),
            i <= players@.len(),
            forall|k: int| i <= k < players@.len() ==> players@[k] == old(players)@[k],
            forall|k: int|
                0 <= k < i ==> (#[trigger] players@[k])@ == old(players)@[k]@.with_history(
                    old(players)@[k]@.history.cleaned(target as nat),
                ),
        decreases players@.len() - i,
    {
        let ghost before = players@;
        assert(before[i as int].wf());
        match &mut players[i].history {
            PlayerHistory::Net(net_player) => {
                net_player.clean(target);
            },
            PlayerHistory::Local(local_player) => {
                local_player.clean(target);
            },
        }
        proof {
            assert forall|k: int| 0 <= k < players@.len() implies (#[trigger] players@[k]).wf() by {
                if k != i {
                    assert(before[k].wf());
                }
            }
        }
        i = i + 1;
    }
    proof {
        assert(players_view(players@) =~= players_cleaned(
            players_view(old(players)@),
            target as nat,
        ));
    }
}

/// The earliest frame with a snapshot.
fn oldest_saved<S>(saved: &HashMap<usize, S>) -> (r: Option<usize>)
    ensures
        r is None ==> forall|j: usize| !saved@.contains_key(j),
        r matches Some(k) ==> is_oldest(saved@, k),
{
    broadcast use vstd::std_specs::hash::group_hash_axioms;

    let mut best: Option<usize> = None;
    let keys = saved.keys();
    let ghost all: Seq<usize> = keys.remaining().unref();
    let ghost mut n: int = 0;
    assert(all.to_set() == saved@.dom());
    for k in it: keys
        invariant
            it.seq().unref() == all,
            n == it.index(),
            0 <= n <= all.len(),
            best is None <==> n == 0,
            best matches Some(b) ==> exists|i: int| 0 <= i < n && all[i] == b,
            best matches Some(b) ==> forall|i: int| 0 <= i < n ==> b <= #[trigger] all[i],
    {
        proof {
            assert(all[n] == *it.seq()[n]);
            n = n + 1;
        }
        best = match best {
            None => Some(*k),
            Some(b) => if *k < b {
                Some(*k)
            } else {
                Some(b)
            },
        };
    }
    proof {
        assert(n == all.len());
        if best is None {
            assert forall|j: usize| !saved@.contains_key(j) by {
                if saved@.contains_key(j) {
                    assert(all.to_set().contains(j));
                }
            }
        } else {
            let b = best->0;
            let i = choose|i: int| 0 <= i < n && all[i] == b;
            assert(all.to_set().contains(all[i]));
            assert forall|j: usize| saved@.contains_key(j) implies b <= j by {
                assert(all.to_set().contains(j));
                let x = choose|x: int| 0 <= x < all.len() && all[x] == j;
                assert(b <= all[x]);
            }
        }
    }
    best
}

/// Drives a simulation on the inputs of local and networked players.
pub struct NetcodeClient<Input, GameState> {
    players: Vec<Player<Input>>,
    current_frame: usize,
    held_input_count: usize,
    skip_frames: usize,
    saved_rollback_states: HashMap<usize, GameState>,
    rollback_to: Option<(usize, GameState)>,
    input_delay: usize,
    allowed_rollback: usize,
    packet_buffer_size: usize,
}

impl<Input, GameState> View for NetcodeClient<Input, GameState> {
    type V = ClientView<Input, GameState>;

    closed spec fn view(&self) -> ClientView<Input, GameState> {
        ClientView {
            players: players_view(self.players@),
            current_frame: self.current_frame,
            held_input_count: self.held_input_count,
            skip_frames: self.skip_frames,
            saved: self.saved_rollback_states@,
            rollback_to: self.rollback_to,
            input_delay: self.input_delay,
            allowed_rollback: self.allowed_rollback,
            packet_buffer_size: self.packet_buffer_size,
        }
    }
}

impl<Input: Clone + Default + PartialEq, GameState> NetcodeClient<Input, GameState> {
    /// The client is soundly represented and its model meets the invariant.
    pub closed spec fn wf(&self) -> bool {
        &&& players_wf(self.players@)
        &&& self@.wf()
    }

    /// What holds of the model of every well-formed client.
    pub proof fn lemma_wf_view(&self)
        requires
            self.wf(),
        ensures
            self@.wf(),
    {
    }

    /// A client without players, at frame 0, with an input delay of 1 frame,
    /// an allowed rollback of 9 frames and 10 inputs to a packet.
    pub fn new(held_input_count: usize) -> (c: Self)
        requires
            held_input_count >= 1,
        ensures
            c.wf(),
            c@ == ClientView::<Input, GameState>::initial(held_input_count),
            c@.within_allowed(),
    {
        broadcast use vstd::std_specs::hash::group_hash_axioms;

        let c = Self {
            players: Vec::new(),
            current_frame: 0,
            held_input_count,
            skip_frames: 0,
            saved_rollback_states: HashMap::new(),
            rollback_to: None,
            input_delay: 1,
            allowed_rollback: 9,
            packet_buffer_size: 10,
        };
        proof {
            assert(c@.players =~= Seq::empty());
            assert(c@.saved =~= Map::empty());
            lemma_within_allowed_at_start(c@);
        }
        c
    }

    /// The number of frames that a local input may run ahead of the
    /// simulation.
    pub fn input_delay(&self) -> (v: usize)
        ensures
            v == self@.input_delay,
    {
        self.input_delay
    }

    /// Sets the input delay, in frames.
    pub fn set_input_delay(&mut self, value: usize)
        ensures
            final(self)@ == (ClientView { input_delay: value, ..old(self)@ }),
            final(self).wf() == old(self).wf(),
            old(self)@.within_allowed() ==> final(self)@.within_allowed(),
    {
        self.input_delay = value;
        proof {
            assert(self@.open_frames() =~= old(self)@.open_frames());
            assert(self@.saved == old(self)@.saved);
            assert(self@.current_frame == old(self)@.current_frame);
            assert(self@.saved_in_past() == old(self)@.saved_in_past());
        }
    }

    /// The number of frames that the client may be ahead of its earliest
    /// snapshot and still advance on a prediction.
    pub fn allowed_rollback(&self) -> (v: usize)
        ensures
            v == self@.allowed_rollback,
    {
        self.allowed_rollback
    }

    /// Sets the allowed rollback, in frames. Lowering it below the number of
    /// open frames takes the client out of the allowed rollback for a while.
    pub fn set_allowed_rollback(&mut self, value: usize)
        ensures
            final(self)@ == (ClientView { allowed_rollback: value, ..old(self)@ }),
            final(self).wf() == old(self).wf(),
            old(self)@.within_allowed() && value >= old(self)@.allowed_rollback
                ==> final(self)@.within_allowed(),
    {
        self.allowed_rollback = value;
        proof {
            assert(self@.open_frames() =~= old(self)@.open_frames());
            assert(self@.saved == old(self)@.saved);
            assert(self@.current_frame == old(self)@.current_frame);
            assert(self@.saved_in_past() == old(self)@.saved_in_past());
        }
    }

    /// The greatest number of inputs that a batch carries.
    pub fn packet_buffer_size(&self) -> (v: usize)
        ensures
            v == self@.packet_buffer_size,
    {
        self.packet_buffer_size
    }

    /// Sets the greatest number of inputs that a batch carries.
    pub fn set_packet_buffer_size(&mut self, value: usize)
        ensures
            final(self)@ == (ClientView { packet_buffer_size: value, ..old(self)@ }),
            final(self).wf() == old(self).wf(),
            old(self)@.within_allowed() ==> final(self)@.within_allowed(),
    {
        self.packet_buffer_size = value;
        proof {
            assert(self@.open_frames() =~= old(self)@.open_frames());
            assert(self@.saved == old(self)@.saved);
            assert(self@.current_frame == old(self)@.current_frame);
            assert(self@.saved_in_past() == old(self)@.saved_in_past());
        }
    }

    /// The next frame that the simulation will advance to.
    pub fn current_frame(&self) -> (v: usize)
        ensures
            v == self@.current_frame,
    {
        self.current_frame
    }

    /// The number of coming ticks on which the client will not advance.
    pub fn skip_frames(&self) -> (v: usize)
        ensures
            v == self@.skip_frames,
    {
        self.skip_frames
    }

    /// The number of snapshots that the client holds.
    pub fn saved_state_count(&self) -> (n: usize)
        ensures
            n == self@.saved.dom().len(),
            self@.within_allowed() ==> n <= self@.allowed_rollback,
    {
        broadcast use vstd::std_specs::hash::group_hash_axioms;

        proof {
            if self@.within_allowed() {
                lemma_snapshots_within_allowed(self@);
            }
        }
        self.saved_rollback_states.len()
    }

    /// The frame that the client will rewind to on the next tick, if any.
    pub fn rollback_frame(&self) -> (frame: Option<usize>)
        ensures
            frame == self@.rewind_frame(),
    {
        match &self.rollback_to {
            Some(pending) => Some(pending.0),
            None => None,
        }
    }

    /// The position of the player `id` in the table.
    fn find_player(&self, id: usize) -> (r: Option<usize>)
        requires
            self.wf(),
        ensures
            r is Some <==> self@.is_registered(id),
            r matches Some(i) ==> i == self@.index_of(id) && i < self.players@.len(),
    {
        let mut i: usize = 0;
        while i < self.players.len()
            invariant
                self.wf(),
                i <= self.players@.len(),
                forall|k: int| 0 <= k < i ==> (#[trigger] self@.players[k]).id != id,
            decreases self.players@.len() - i,
        {
            if self.players[i].id.0 == id {
                proof {
                    self@.lemma_index_of(i as int);
                }
                return Some(i);
            }
            i = i + 1;
        }
        proof {
            self@.lemma_index_of_absent(id);
        }
        None
    }

    /// Whether `player` is registered as a local player.
    pub fn is_local_player(&self, player: PlayerHandle) -> (b: bool)
        requires
            self.wf(),
        ensures
            b == self@.is_local(player.0),
    {
        match self.find_player(player.0) {
            Some(i) => match self.players[i].history {
                PlayerHistory::Local(_) => true,
                PlayerHistory::Net(_) => false,
            },
            None => false,
        }
    }

    /// Whether `player` is registered as a networked player.
    pub fn is_net_player(&self, player: PlayerHandle) -> (b: bool)
        requires
            self.wf(),
        ensures
            b == self@.is_net(player.0),
    {
        match self.find_player(player.0) {
            Some(i) => match self.players[i].history {
                PlayerHistory::Local(_) => false,
                PlayerHistory::Net(_) => true,
            },
            None => false,
        }
    }

    /// The expected transit time of the packets of a networked player, in frames.
    pub fn get_network_delay(&self, player: PlayerHandle) -> (delay: usize)
        requires
            self.wf(),
            self@.is_net(player.0),
        ensures
            delay == self@.players[self@.index_of(player.0)].delay,
    {
        match self.find_player(player.0) {
            Some(i) => self.players[i].network_delay,
            None => 0,
        }
    }

    /// Sets the expected transit time of the packets of a networked player.
    pub fn set_network_delay(&mut self, value: usize, player: PlayerHandle)
        requires
            old(self).wf(),
            old(self)@.is_net(player.0),
        ensures
            final(self).wf(),
            final(self)@ == old(self)@.with_delay(player.0, value),
            old(self)@.within_allowed() ==> final(self)@.within_allowed(),
    {
        proof {
            if old(self)@.within_allowed() {
                lemma_within_allowed_by_delay(old(self)@, player.0, value);
            }
        }
        match self.find_player(player.0) {
            Some(i) => {
                self.players[i].network_delay = value;
                proof {
                    assert(self@.players =~= old(self)@.with_delay(player.0, value).players);
                    old(self)@.lemma_with_delay_wf(player.0, value);
                    assert forall|k: int| 0 <= k < self.players@.len() implies (
                    #[trigger] self.players@[k]).wf() by {
                        assert(old(self).players@[k].wf());
                    }
                }
            },
            None => {},
        }
    }

    /// Registers a player whose inputs are produced here. A player that is
    /// registered already stays as it is.
    pub fn add_local_player(&mut self, index: usize) -> (handle: PlayerHandle)
        requires
            old(self).wf(),
            old(self)@.current_frame == 0,
        ensures
            final(self).wf(),
            final(self)@ == old(self)@.with_player(index, PlayerType::Local),
            handle.0 == index,
            old(self)@.within_allowed() ==> final(self)@.within_allowed(),
    {
        proof {
            if old(self)@.within_allowed() {
                lemma_within_allowed_by_registration(old(self)@, index, PlayerType::Local);
            }
        }
        let handle = PlayerHandle(index);
        if self.find_player(index).is_none() {
            let player = Player {
                id: handle,
                history: PlayerHistory::Local(InputHistory::new()),
                network_delay: 0,
            };
            self.players.push(player);
            proof {
                let target = old(self)@.with_player(index, PlayerType::Local);
                assert(self@.players[old(self).players@.len() as int].history.slots
                    =~= Seq::<Slot<Input>>::empty());
                assert(self@.players =~= target.players);
                old(self)@.lemma_with_player_wf(index, PlayerType::Local);
                assert forall|k: int| 0 <= k < self.players@.len() implies (
                #[trigger] self.players@[k]).wf() by {
                    if k < old(self).players@.len() {
                        assert(old(self).players@[k].wf());
                    }
                }
            }
        }
        handle
    }

    /// Registers a player whose inputs arrive from a peer, with an expected
    /// transit time of 0 frames. A player that is registered already stays as
    /// it is.
    pub fn add_net_player(&mut self, index: usize) -> (handle: PlayerHandle)
        requires
            old(self).wf(),
            old(self)@.current_frame == 0,
        ensures
            final(self).wf(),
            final(self)@ == old(self)@.with_player(index, PlayerType::Net),
            handle.0 == index,
            old(self)@.within_allowed() ==> final(self)@.within_allowed(),
    {
        proof {
            if old(self)@.within_allowed() {
                lemma_within_allowed_by_registration(old(self)@, index, PlayerType::Net);
            }
        }
        let handle = PlayerHandle(index);
        if self.find_player(index).is_none() {
            let player = Player {
                id: handle,
                history: PlayerHistory::Net(NetworkedHistory::new()),
                network_delay: 0,
            };
            self.players.push(player);
            proof {
                let target = old(self)@.with_player(index, PlayerType::Net);
                assert(self@.players[old(self).players@.len() as int].history.slots
                    =~= Seq::<Slot<Input>>::empty());
                assert(self@.players =~= target.players);
                old(self)@.lemma_with_player_wf(index, PlayerType::Net);
                assert forall|k: int| 0 <= k < self.players@.len() implies (
                #[trigger] self.players@[k]).wf() by {
                    if k < old(self).players@.len() {
                        assert(old(self).players@[k].wf());
                    }
                }
            }
        }
        handle
    }

    /// Takes the input that a local player produced on this tick. The input
    /// is appended to the player's history, and the player's latest inputs
    /// are returned as a packet for the peers. Where the player has an input
    /// for the delayed frame already, nothing changes and nothing is returned.
    pub fn handle_local_input(&mut self, data: Input, player: PlayerHandle) -> (packet: Option<
        Packet<Input>,
    >)
        requires
            old(self).wf(),
            old(self)@.is_local(player.0),
            old(self)@.delayed_frame() < usize::MAX,
        ensures
            final(self).wf(),
            final(self)@ == old(self)@.with_local_input(player.0, data),
            fronts_kept(old(self)@.players, final(self)@.players),
            old(self)@.within_allowed() ==> final(self)@.within_allowed(),
            old(self)@.history(player.0).is_canonical(old(self)@.delayed_frame()) ==> packet
                is None,
            !old(self)@.history(player.0).is_canonical(old(self)@.delayed_frame()) ==> {
                let placed = old(self)@.history(player.0).end();
                let history = final(self)@.history(player.0);
                let amt = old(self)@.packet_buffer_size as nat;
                &&& packet matches Some(Packet::Inputs(sender, sent_on, first, values))
                &&& sender == player
                &&& sent_on == old(self)@.current_frame
                &&& first == history.window_first(placed, amt)
                &&& clones_of(history.window(placed, amt), values@)
            },
    {
        let delayed_current_frame = self.current_frame + self.input_delay;
        let buffer_size = self.packet_buffer_size;
        let current_frame = self.current_frame;
        let found = self.find_player(player.0);
        let i = match found {
            Some(i) => i,
            None => { return None; },
        };
        proof {
            old(self)@.lemma_with_local_input_wf(player.0, data);
            lemma_fronts_kept_by_local_input(old(self)@, player.0, data);
            if old(self)@.within_allowed() {
                lemma_within_allowed_by_local_input(old(self)@, player.0, data);
            }
            assert(old(self).players@[i as int].wf());
        }
        let present = match &self.players[i].history {
            PlayerHistory::Local(local_player) => local_player.has_input(delayed_current_frame),
            PlayerHistory::Net(_) => true,
        };
        if present {
            return None;
        }
        let ghost before = old(self)@.history(player.0);
        let (first, values) = match &mut self.players[i].history {
            PlayerHistory::Local(local_player) => {
                let input_frame = local_player.add_input(data);
                let (range, slice) = local_player.get_inputs(input_frame, buffer_size);
                (range.first, clone_slice(slice))
            },
            PlayerHistory::Net(_) => (0, Vec::new()),
        };
        proof {
            let target = old(self)@.with_local_input(player.0, data);
            let h = before.appended(data);
            assert(self@.players[i as int].history == h);
            assert(self@.players =~= target.players);
            old(self)@.lemma_with_history(player.0, h);
            assert forall|k: int| 0 <= k < self.players@.len() implies (
            #[trigger] self.players@[k]).wf() by {
                if k != i {
                    assert(old(self).players@[k].wf());
                }
            }
            let placed = before.end();
            h.lemma_window(placed, buffer_size as nat);
            let w = h.window(placed, buffer_size as nat);
            assert(target.players[i as int].settled(target.current_frame as nat));
            assert forall|k: int| 0 <= k < w.len() implies cloned(
                w[k].value(),
                #[trigger] values@[k],
            ) by {
                let f = (h.window_first(placed, buffer_size as nat) + k) as nat;
                assert(w[k] == h.slot(f));
                assert(h.contains(f));
                assert(h.slot(f) is Canonical);
            }
        }
        Some(Packet::Inputs(player, current_frame, first, values))
    }

    /// Whether some networked player holds a prediction for `frame`.
    fn any_predicted_input(&self, frame: usize) -> (b: bool)
        requires
            players_wf(self.players@),
        ensures
            b == any_predicted(self@.players, frame as nat),
    {
        let mut i: usize = 0;
        while i < self.players.len()
            invariant
                players_wf(self.players@),
                i <= self.players@.len(),
                forall|k: int|
                    0 <= k < i ==> !((#[trigger] self@.players[k]).kind is Net
                        && self@.players[k].history.is_predicted(frame as nat)),
            decreases self.players@.len() - i,
        {
            assert(self.players@[i as int].wf());
            let predicted = match &self.players[i].history {
                PlayerHistory::Net(net_player) => net_player.is_predicted_input(frame),
                PlayerHistory::Local(_) => false,
            };
            if predicted {
                assert(self@.players[i as int].kind is Net);
                return true;
            }
            i = i + 1;
        }
        false
    }

    /// Takes the input of a networked player for `frame`.
    ///
    /// An input that confirms a prediction lets the frame's snapshot go once
    /// no player holds a prediction for the frame. An input that refutes a
    /// prediction makes the client rewind to the frame on the next tick,
    /// unless it will rewind to that frame or an earlier one already. An
    /// input for a frame that the history has dropped is ignored.
    pub fn handle_net_input(&mut self, frame: usize, input: Input, player: PlayerHandle)
        requires
            old(self).wf(),
            old(self)@.is_net(player.0),
            Input::obeys_eq_spec(),
            frame < usize::MAX,
        ensures
            final(self).wf(),
            final(self)@ == old(self)@.with_net_input(frame, input, player.0),
            fronts_kept(old(self)@.players, final(self)@.players),
            old(self)@.within_allowed() ==> final(self)@.within_allowed(),
    {
        broadcast use vstd::std_specs::hash::group_hash_axioms;

        let found = self.find_player(player.0);
        let i = match found {
            Some(i) => i,
            None => { return ; },
        };
        proof {
            old(self)@.lemma_with_net_input_wf(frame, input, player.0);
            if old(self)@.within_allowed() {
                lemma_within_allowed_by_net_input(old(self)@, frame, input, player.0);
            }
            assert(old(self).players@[i as int].wf());
        }
        let front = match &self.players[i].history {
            PlayerHistory::Net(net_player) => net_player.front(),
            PlayerHistory::Local(_) => 0,
        };
        if frame < front {
            return ;
        }
        let ghost before = old(self)@.history(player.0);
        let result = match &mut self.players[i].history {
            PlayerHistory::Net(net_player) => net_player.add_input(frame, input),
            PlayerHistory::Local(_) => PredictionResult::Unpredicted,
        };
        proof {
            let h = before.with_input(frame as nat, input);
            let c = old(self)@.with_history(player.0, h);
            assert(self@.players[i as int].history == h);
            assert(self@.players =~= c.players);
            assert forall|k: int| 0 <= k < self.players@.len() implies (
            #[trigger] self.players@[k]).wf() by {
                if k != i {
                    assert(old(self).players@[k].wf());
                }
            }
        }
        match result {
            PredictionResult::Unpredicted => {},
            PredictionResult::Correct => {
                if !self.any_predicted_input(frame) {
                    let _ = self.saved_rollback_states.remove(&frame);
                }
            },
            PredictionResult::Wrong => {
                let state = self.saved_rollback_states.remove(&frame);
                match state {
                    Some(state) => {
                        let replace = match &self.rollback_to {
                            Some(pending) => pending.0 > frame,
                            None => true,
                        };
                        if replace {
                            self.rollback_to = Some((frame, state));
                        }
                    },
                    None => {},
                }
            },
        }
        proof {
            assert(self@.saved =~= old(self)@.with_net_input(frame, input, player.0).saved);
        }
    }

    /// The number of ticks to pause on a packet that the player at `i` sent
    /// on the frame `sent_on_frame`: the number of frames that the client is
    /// ahead of that frame and the packet's transit time together.
    fn frames_ahead(&self, i: usize, sent_on_frame: usize) -> (skip: usize)
        requires
            i < self.players@.len(),
        ensures
            skip == skip_for(
                self@.current_frame as int,
                sent_on_frame as int,
                self@.players[i as int].delay as int,
            ),
    {
        match sent_on_frame.checked_add(self.players[i].network_delay) {
            Some(arrival) => if self.current_frame > arrival {
                self.current_frame - arrival
            } else {
                0
            },
            None => 0,
        }
    }

    /// Takes the inputs of a networked player for the frames from
    /// `start_frame` on, one after the other.
    fn handle_net_inputs(&mut self, start_frame: usize, inputs: Vec<Input>, player: PlayerHandle)
        requires
            old(self).wf(),
            old(self)@.is_net(player.0),
            Input::obeys_eq_spec(),
            start_frame + inputs@.len() <= usize::MAX,
        ensures
            final(self).wf(),
            final(self)@ == old(self)@.with_net_inputs(start_frame, inputs@, player.0),
    {
        let ghost all = inputs@;
        let ghost start = self@;
        let mut idx: usize = 0;
        for input in it: inputs.into_iter()
            invariant
                it.seq() == all,
                idx == it.index(),
                idx <= all.len(),
                start_frame + all.len() <= usize::MAX,
                Input::obeys_eq_spec(),
                start.wf(),
                start.is_net(player.0),
                self.wf(),
                self@ == start.with_net_inputs(start_frame, all.take(idx as int), player.0),
        {
            proof {
                let k = idx as int;
                assert(all.take(k + 1).drop_last() =~= all.take(k));
                assert(all.take(k + 1).last() == all[k]);
                start.lemma_with_net_inputs_wf(start_frame, all.take(k), player.0);
            }
            let frame = start_frame + idx;
            self.handle_net_input(frame, input, player);
            idx = idx + 1;
        }
        proof {
            assert(all.take(all.len() as int) =~= all);
        }
    }

    /// What the local players have to offer for `frame`.
    fn provide(&self, frame: usize) -> (reply: Option<Packet<Input>>)
        requires
            self.wf(),
        ensures
            provides(reply, provided(self@.players, frame as nat)),
    {
        let mut requested_data: Vec<(PlayerHandle, usize, Vec<Input>)> = Vec::new();
        let mut i: usize = 0;
        while i < self.players.len()
            invariant
                self.wf(),
                i <= self.players@.len(),
                requested_data@.len() == provided(self@.players.take(i as int), frame as nat).len(),
                forall|k: int|
                    0 <= k < requested_data@.len() ==> {
                        let e = provided(self@.players.take(i as int), frame as nat)[k];
                        (#[trigger] requested_data@[k]).0.0 == e.id && requested_data@[k].1
                            == e.first && clones_of(e.slots, requested_data@[k].2@)
                    },
            decreases self.players@.len() - i,
        {
            let ghost done = provided(self@.players.take(i as int), frame as nat);
            proof {
                assert(self@.players.take(i + 1).drop_last() =~= self@.players.take(i as int));
                assert(self@.players.take(i + 1).last() == self@.players[i as int]);
                assert(self.players@[i as int].wf());
                assert(self@.players[i as int].settled(self@.current_frame as nat));
            }
            match &self.players[i].history {
                PlayerHistory::Local(local_player) => {
                    let front = local_player.front();
                    let from = if frame < front {
                        front
                    } else {
                        frame
                    };
                    let (range, slice) = local_player.get_inputs(from, 1);
                    let values = clone_slice(slice);
                    proof {
                        let h = local_player@;
                        h.lemma_window(from as nat, 1);
                        let w = h.window(from as nat, 1);
                        assert forall|k: int| 0 <= k < w.len() implies cloned(
                            w[k].value(),
                            #[trigger] values@[k],
                        ) by {
                            let f = (h.window_first(from as nat, 1) + k) as nat;
                            assert(w[k] == h.slot(f));
                            assert(h.contains(f));
                            assert(h.slot(f) is Canonical);
                        }
                    }
                    requested_data.push((self.players[i].id, range.first, values));
                },
                PlayerHistory::Net(_) => {},
            }
            i = i + 1;
        }
        proof {
            assert(self@.players.take(i as int) =~= self@.players);
        }
        if requested_data.len() == 0 {
            None
        } else {
            Some(Packet::Provide(requested_data))
        }
    }

    /// Takes the entries of an answer, one after the other.
    fn handle_provided(&mut self, inputs_list: Vec<(PlayerHandle, usize, Vec<Input>)>)
        requires
            old(self).wf(),
            old(self)@.accepts_provided(inputs_list@),
            Input::obeys_eq_spec(),
        ensures
            final(self).wf(),
            final(self)@ == old(self)@.with_provided(inputs_list@),
    {
        let ghost all = inputs_list@;
        let ghost start = self@;
        let ghost mut n: int = 0;
        for entry in it: inputs_list.into_iter()
            invariant
                it.seq() == all,
                n == it.index(),
                0 <= n <= all.len(),
                Input::obeys_eq_spec(),
                start.wf(),
                start.accepts_provided(all),
                self.wf(),
                self@ == start.with_provided(all.take(n)),
        {
            proof {
                assert(all.take(n + 1).drop_last() =~= all.take(n));
                assert(all.take(n + 1).last() == all[n]);
                assert forall|k: int| 0 <= k < all.take(n).len() implies start.is_net(
                    (#[trigger] all.take(n)[k]).0.0,
                ) && all.take(n)[k].1 + all.take(n)[k].2@.len() <= usize::MAX by {
                    assert(start.is_net(all[k].0.0));
                }
                start.lemma_with_provided_wf(all.take(n));
                assert(start.is_net(all[n].0.0));
                start.lemma_is_net_same_players(self@, all[n].0.0);
            }
            let (player_handle, frame, inputs) = entry;
            self.handle_net_inputs(frame, inputs, player_handle);
            proof {
                n = n + 1;
            }
        }
        proof {
            assert(all.take(all.len() as int) =~= all);
        }
    }

    /// Whether the packet may be handed to `handle_packet`: it names
    /// networked players and frames of the machine's range only.
    pub fn accepts(&self, packet: &Packet<Input>) -> (b: bool)
        requires
            self.wf(),
        ensures
            b == self@.accepts(*packet),
    {
        match packet {
            Packet::Inputs(sender, _, start, values) => {
                let named = self.is_net_player(*sender);
                let fits = values.len() <= usize::MAX - *start;
                named && fits
            },
            Packet::Request(_) => true,
            Packet::Provide(entries) => {
                let mut k: usize = 0;
                while k < entries.len()
                    invariant
                        self.wf(),
                        packet matches Packet::Provide(list) && list == entries,
                        k <= entries@.len(),
                        forall|j: int|
                            0 <= j < k ==> self@.is_net((#[trigger] entries@[j]).0.0)
                                && entries@[j].1 + entries@[j].2@.len() <= usize::MAX,
                    decreases entries@.len() - k,
                {
                    let entry = &entries[k];
                    let named = self.is_net_player(entry.0);
                    let fits = entry.2.len() <= usize::MAX - entry.1;
                    if !named || !fits {
                        assert(!(self@.is_net(entries@[k as int].0.0) && entries@[k as int].1
                            + entries@[k as int].2@.len() <= usize::MAX));
                        return false;
                    }
                    k = k + 1;
                }
                true
            },
        }
    }

    /// Takes a packet that arrived and returns the packet to send back, if
    /// there is one.
    ///
    /// A batch of inputs sets the number of ticks to pause, by which the
    /// client is ahead of the sender, and hands over its inputs. A request is
    /// answered with the local players' inputs for the frame, if there is a
    /// local player. An answer hands over its inputs.
    pub fn handle_packet(&mut self, packet: Packet<Input>) -> (reply: Option<Packet<Input>>)
        requires
            old(self).wf(),
            old(self)@.accepts(packet),
            Input::obeys_eq_spec(),
        ensures
            final(self).wf(),
            final(self)@ == old(self)@.with_packet(packet),
            fronts_kept(old(self)@.players, final(self)@.players),
            old(self)@.within_allowed() ==> final(self)@.within_allowed(),
            packet matches Packet::Request(frame) ==> provides(
                reply,
                provided(old(self)@.players, frame as nat),
            ),
            !(packet is Request) ==> reply is None,
            (forall|i: int|
                0 <= i < old(self)@.players.len() ==> !((#[trigger] old(self)@.players[i]).kind
                    is Local)) ==> reply is None,
    {
        proof {
            lemma_fronts_kept_by_packet(old(self)@, packet);
            if old(self)@.within_allowed() {
                lemma_within_allowed_by_packet(old(self)@, packet);
            }
            if forall|i: int|
                0 <= i < old(self)@.players.len() ==> !((#[trigger] old(self)@.players[i]).kind
                    is Local) {
                if let Packet::Request(frame) = packet {
                    lemma_provided_without_locals(old(self)@.players, frame as nat);
                }
            }
        }
        match packet {
            Packet::Inputs(player_handle, sent_on_frame, start_frame, inputs) => {
                let found = self.find_player(player_handle.0);
                let i = match found {
                    Some(i) => i,
                    None => { return None; },
                };
                self.skip_frames = self.frames_ahead(i, sent_on_frame);
                proof {
                    assert(self@.players == old(self)@.players);
                    assert(self@.is_net(player_handle.0));
                }
                self.handle_net_inputs(start_frame, inputs, player_handle);
                None
            },
            Packet::Request(frame) => self.provide(frame),
            Packet::Provide(inputs_list) => {
                self.handle_provided(inputs_list);
                None
            },
        }
    }

    /// Carries out a pending rewind: sets the simulation back to the snapshot
    /// and leads it through the frames up to the current one again. Before
    /// each frame for which a player still holds a prediction, the state is
    /// saved anew and the predictions are renewed.
    fn rewind<Game: RollbackableGameState<SavedState = GameState, Input = Input>>(
        &mut self,
        game: &mut Game,
    )
        requires
            old(self).wf(),
        ensures
            final(self).wf(),
            rewound(old(self)@, *old(game), final(self)@, *final(game)),
    {
        broadcast use vstd::std_specs::hash::group_hash_axioms;

        let ghost start = self@;
        let pending = self.rollback_to.take();
        match pending {
            None => {},
            Some((rollback_frame, state)) => {
                let ghost g0 = Game::loaded(state);
                let ghost rb = rollback_frame as nat;
                game.load_state(state);
                let current_frame = self.current_frame;
                let held = self.held_input_count;
                let mut f = rollback_frame;
                proof {
                    assert(self@.saved =~= resaved(
                        start.saved,
                        g0,
                        self@.players,
                        rb,
                        rb,
                        held as nat,
                    ));
                }
                while f < current_frame
                    invariant
                        players_wf(self.players@),
                        start.wf(),
                        start.rewind_frame() == Some(rollback_frame),
                        rb == rollback_frame,
                        rollback_frame <= f <= current_frame,
                        current_frame == start.current_frame,
                        held == start.held_input_count,
                        self@.current_frame == start.current_frame,
                        self@.skip_frames == start.skip_frames,
                        start.same_settings(self@),
                        self@.rollback_to is None,
                        players_repredicted(start.players, self@.players, rb, f as nat),
                        self@.saved == resaved(
                            start.saved,
                            g0,
                            self@.players,
                            rb,
                            f as nat,
                            held as nat,
                        ),
                        *game == replayed(g0, self@.players, rb, f as nat, held as nat),
                    decreases current_frame - f,
                {
                    let ghost p = self@.players;
                    let ghost saved_before = self@.saved;
                    if self.any_predicted_input(f) {
                        let snapshot = game.save_state();
                        let _ = self.saved_rollback_states.insert(f, snapshot);
                    }
                    repredict_all(&mut self.players, f);
                    let ghost q = self@.players;
                    proof {
                        lemma_players_repredicted_extend(start.players, p, q, rb, f as nat);
                        lemma_repredicted_settled(start, p, rb, f as nat);
                        lemma_repredicted_settled(start, q, rb, (f + 1) as nat);
                        assert forall|i: int| 0 <= i < q.len() implies (#[trigger] q[i]).settled(
                            current_frame as nat,
                        ) && q[i].history.front <= f by {
                            assert(start.players[i].history.front <= rb);
                        }
                        lemma_windows_filled(q, current_frame as nat, f as nat);
                        assert forall|i: int| 0 <= i < p.len() implies (
                        #[trigger] p[i]).history.front <= rb by {
                            assert(start.players[i].history.front <= rb);
                        }
                        assert forall|k: nat| rb <= k <= f implies #[trigger] replayed(
                            g0,
                            q,
                            rb,
                            k,
                            held as nat,
                        ) == replayed(g0, p, rb, k, held as nat) by {
                            lemma_replay_prefix(g0, p, q, rb, f as nat, held as nat, k);
                        }
                        assert forall|k: nat| #[trigger] any_predicted(q, k) == any_predicted(p, k) by {
                            lemma_repredicted_any_predicted(p, q, f as nat, (f + 1) as nat, k);
                        }
                        let target = resaved(
                            start.saved,
                            g0,
                            q,
                            rb,
                            (f + 1) as nat,
                            held as nat,
                        );
                        assert forall|k: usize| #[trigger]
                            target.contains_key(k) == self@.saved.contains_key(k) by {
                            assert(any_predicted(q, k as nat) == any_predicted(p, k as nat));
                        }
                        assert forall|k: usize| #[trigger] target.contains_key(k) implies target[k]
                            == self@.saved[k] by {
                            assert(any_predicted(q, k as nat) == any_predicted(p, k as nat));
                            if rb <= k <= f {
                                assert(replayed(g0, q, rb, k as nat, held as nat) == replayed(
                                    g0,
                                    p,
                                    rb,
                                    k as nat,
                                    held as nat,
                                ));
                            }
                        }
                        assert(self@.saved =~= target);
                    }
                    let set = input_set(&self.players, f, held);
                    game.advance_frame(set);
                    proof {
                        assert(replayed(g0, q, rb, f as nat, held as nat) == replayed(
                            g0,
                            p,
                            rb,
                            f as nat,
                            held as nat,
                        ));
                    }
                    f = f + 1;
                }
            },
        }
        proof {
            lemma_rewound_wf(start, *old(game), self@, *game);
        }
    }

    /// One tick without a pending rewind: the client pauses, advances,
    /// advances on a prediction, or stays and asks for the missing inputs.
    fn step<Game: RollbackableGameState<SavedState = GameState, Input = Input>>(
        &mut self,
        game: &mut Game,
    ) -> (reply: Option<Packet<Input>>)
        requires
            old(self).wf(),
            old(self)@.rollback_to is None,
            old(self)@.current_frame < usize::MAX,
        ensures
            final(self).wf(),
            stepped(old(self)@, *old(game), final(self)@, *final(game), reply),
    {
        broadcast use vstd::std_specs::hash::group_hash_axioms;

        let ghost start = self@;
        let ghost g = *game;
        let current_frame = self.current_frame;
        let held = self.held_input_count;
        let reply = if self.skip_frames > 0 {
            self.skip_frames = self.skip_frames - 1;
            None
        } else if all_have_input(&self.players, current_frame) {
            if current_frame % held == 0 {
                let clear_target = match held.checked_add(self.allowed_rollback) {
                    Some(kept) => if current_frame >= kept {
                        current_frame - kept
                    } else {
                        0
                    },
                    None => 0,
                };
                clean_all(&mut self.players, clear_target);
            }
            proof {
                let c2 = ClientView { current_frame: (current_frame + 1) as usize, ..self@ };
                let g2 = g.advanced(input_windows(c2.players, current_frame as nat, held as nat));
                assert(stepped(start, g, c2, g2, None));
                lemma_stepped_wf(start, g, c2, g2, None);
                assert forall|i: int| 0 <= i < c2.players.len() implies (
                #[trigger] c2.players[i]).settled((current_frame + 1) as nat)
                    && c2.players[i].history.front <= current_frame by {}
                lemma_windows_filled(c2.players, (current_frame + 1) as nat, current_frame as nat);
            }
            let set = input_set(&self.players, current_frame, held);
            game.advance_frame(set);
            self.current_frame = current_frame + 1;
            None
        } else {
            let backlog = match oldest_saved(&self.saved_rollback_states) {
                Some(frame) => if current_frame >= frame {
                    current_frame - frame
                } else {
                    0
                },
                None => 0,
            };
            assert(backlog == start.backlog());
            if backlog < self.allowed_rollback && current_frame > self.allowed_rollback {
                let snapshot = game.save_state();
                let _ = self.saved_rollback_states.insert(current_frame, snapshot);
                proof {
                    assert forall|k: int| 0 <= k < self.players@.len() implies (
                    #[trigger] players_view(self.players@)[k]).history.front <= current_frame by {
                        assert(start.players[k].settled(current_frame as nat));
                    }
                }
                predict_all(&mut self.players, current_frame);
                proof {
                    let c2 = ClientView { current_frame: (current_frame + 1) as usize, ..self@ };
                    let g2 = g.advanced(
                        input_windows(c2.players, current_frame as nat, held as nat),
                    );
                    assert(stepped(start, g, c2, g2, None));
                    lemma_stepped_wf(start, g, c2, g2, None);
                    assert forall|i: int| 0 <= i < c2.players.len() implies (
                    #[trigger] c2.players[i]).settled((current_frame + 1) as nat)
                        && c2.players[i].history.front <= current_frame by {}
                    lemma_windows_filled(
                        c2.players,
                        (current_frame + 1) as nat,
                        current_frame as nat,
                    );
                }
                let set = input_set(&self.players, current_frame, held);
                game.advance_frame(set);
                self.current_frame = current_frame + 1;
                None
            } else {
                Some(Packet::Request(current_frame))
            }
        };
        proof {
            lemma_stepped_wf(start, g, self@, *game, reply);
        }
        reply
    }

    /// One tick of the simulation.
    ///
    /// A pending rewind is carried out first. Then the client pauses while it
    /// has ticks to skip; else it advances the simulation by one frame where
    /// every player's input for the current frame is known; else it advances
    /// on predicted inputs where it may; else it stays, and the packet that
    /// asks the peer for the missing inputs is returned.
    pub fn update<Game: RollbackableGameState<SavedState = GameState, Input = Input>>(
        &mut self,
        game: &mut Game,
    ) -> (reply: Option<Packet<Input>>)
        requires
            old(self).wf(),
            old(self)@.current_frame < usize::MAX,
        ensures
            final(self).wf(),
            updated(old(self)@, *old(game), final(self)@, *final(game), reply),
            fronts_kept(old(self)@.players, final(self)@.players),
            final(self)@.current_frame >= old(self)@.current_frame,
            old(self)@.within_allowed() ==> final(self)@.within_allowed(),
    {
        self.rewind(game);
        let ghost mid = self@;
        let ghost gm = *game;
        let reply = self.step(game);
        proof {
            assert(rewound(old(self)@, *old(game), mid, gm) && stepped(
                mid,
                gm,
                self@,
                *game,
                reply,
            ));
            lemma_fronts_kept_by_update(old(self)@, *old(game), self@, *game, reply);
            if old(self)@.within_allowed() {
                lemma_within_allowed_by_update(old(self)@, *old(game), self@, *game, reply);
            }
        }
        reply
    }

    /// The first frame that the history of a player still holds.
    pub fn history_front(&self, player: PlayerHandle) -> (front: usize)
        requires
            self.wf(),
            self@.is_registered(player.0),
        ensures
            front == self@.history(player.0).front,
    {
        match self.find_player(player.0) {
            Some(i) => {
                assert(self.players@[i as int].wf());
                match &self.players[i].history {
                    PlayerHistory::Local(local_player) => local_player.front(),
                    PlayerHistory::Net(net_player) => net_player.front(),
                }
            },
            None => 0,
        }
    }

    /// The number of frames that the history of a player holds.
    pub fn history_len(&self, player: PlayerHandle) -> (len: usize)
        requires
            self.wf(),
            self@.is_registered(player.0),
        ensures
            len == self@.history(player.0).slots.len(),
    {
        match self.find_player(player.0) {
            Some(i) => {
                assert(self.players@[i as int].wf());
                match &self.players[i].history {
                    PlayerHistory::Local(local_player) => local_player.len(),
                    PlayerHistory::Net(net_player) => net_player.len(),
                }
            },
            None => 0,
        }
    }
}

} // verus!
