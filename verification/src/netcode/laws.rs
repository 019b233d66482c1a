//! What holds of the client across its operations.

use crate::input_history::networked_history::{predicted_at, repredicted};
use crate::input_history::{is_default, HistoryView, Slot};
use crate::netcode::model::{
    all_canonical, any_predicted, input_windows, is_oldest, lemma_repredicted_any_predicted,
    lemma_replayed_agrees, lemma_rewound_wf, lemma_stepped_wf, replayed, rewound, skip_for,
    slot_values, stepped, updated, ClientView, PlayerView,
};
use crate::netcode::{Packet, PlayerHandle, PlayerType, RollbackableGameState};
use vstd::prelude::*;

verus! {

/// `after` holds the players of `before`, in their places, and no history
/// starts earlier than it did.
pub open spec fn fronts_kept<I>(before: Seq<PlayerView<I>>, after: Seq<PlayerView<I>>) -> bool {
    &&& after.len() >= before.len()
    &&& forall|i: int|
        0 <= i < before.len() ==> (#[trigger] after[i]).id == before[i].id
            && after[i].history.front >= before[i].history.front
}

/// A clone equals what it was cloned from.
pub open spec fn exact_clones<I: Clone>() -> bool {
    forall|a: I, b: I| #[trigger] cloned(a, b) ==> a == b
}

/// `default()` has one value.
pub open spec fn one_default<I: Default>() -> bool {
    forall|a: I, b: I| #[trigger] is_default(a) && #[trigger] is_default(b) ==> a == b
}

/// Before the current frame a networked history has no gap: every frame from
/// its front on holds a prediction or a canonical input.
pub proof fn lemma_no_gap_before_current<I, S>(c: ClientView<I, S>, i: int, f: nat)
    requires
        c.wf(),
        0 <= i < c.players.len(),
        c.players[i].kind is Net,
        c.players[i].history.front <= f < c.current_frame,
    ensures
        c.players[i].history.is_predicted(f) || c.players[i].history.is_canonical(f),
{
    assert(c.players[i].settled(c.current_frame as nat));
    assert(!(c.players[i].history.slot(f) is Empty));
}

/// A snapshot that a rewind takes is of a frame for which some networked
/// player holds a prediction.
pub proof fn lemma_rewind_saves_predicted_frames<
    I: Clone + Default + PartialEq,
    S,
    G: RollbackableGameState<Input = I, SavedState = S>,
>(c: ClientView<I, S>, g: G, c2: ClientView<I, S>, g2: G, f: usize)
    requires
        rewound(c, g, c2, g2),
        c2.saved.contains_key(f),
        !c.saved.contains_key(f) || c2.saved[f] != c.saved[f],
    ensures
        any_predicted(c2.players, f as nat),
{
}

/// A snapshot that a tick takes is of the current frame, and where every
/// local player has its input for that frame, some networked player holds a
/// prediction for it afterwards.
pub proof fn lemma_speculation_saves_predicted_frame<
    I: Clone + Default + PartialEq,
    S,
    G: RollbackableGameState<Input = I, SavedState = S>,
>(c: ClientView<I, S>, g: G, c2: ClientView<I, S>, g2: G, reply: Option<Packet<I>>, f: usize)
    requires
        c.wf(),
        stepped(c, g, c2, g2, reply),
        c2.saved.contains_key(f),
        !c.saved.contains_key(f) || c2.saved[f] != c.saved[f],
        forall|i: int|
            0 <= i < c.players.len() && (#[trigger] c.players[i]).kind is Local
                ==> c.players[i].history.is_canonical(c.current_frame as nat),
    ensures
        f == c.current_frame,
        c2.saved[f] == g.saved(),
        any_predicted(c2.players, f as nat),
{
    let cur = c.current_frame as nat;
    assert(f == c.current_frame);
    let i = choose|i: int|
        0 <= i < c.players.len() && !(#[trigger] c.players[i]).history.is_canonical(cur);
    assert(c.players[i].kind is Net);
    assert(c.players[i].settled(cur));
    assert(c.players[i].history.slot(cur) is Empty);
    assert(predicted_at(c.players[i].history, c2.players[i].history, cur));
    assert(c2.players[i].kind is Net && c2.players[i].history.is_predicted(cur));
}

/// A finite set of frames within `[lo, hi)` has at most `hi - lo` members.
pub proof fn lemma_frames_in_range(s: Set<usize>, lo: int, hi: int)
    requires
        s.finite(),
        lo <= hi,
        forall|k: usize| s.contains(k) ==> lo <= k < hi,
    ensures
        s.len() <= hi - lo,
    decreases hi - lo,
{
    if s.len() > 0 {
        let k = s.choose();
        assert(s.contains(k));
        if hi - 1 <= usize::MAX && 0 <= hi - 1 && s.contains((hi - 1) as usize) {
            lemma_frames_in_range(s.remove((hi - 1) as usize), lo, hi - 1);
        } else {
            lemma_frames_in_range(s, lo, hi - 1);
        }
    }
}

/// After a tick on which the client took a snapshot, it holds no more
/// snapshots than the allowed rollback.
pub proof fn lemma_snapshots_bounded<
    I: Clone + Default + PartialEq,
    S,
    G: RollbackableGameState<Input = I, SavedState = S>,
>(c: ClientView<I, S>, g: G, c2: ClientView<I, S>, g2: G, reply: Option<Packet<I>>)
    requires
        c.wf(),
        c.saved.dom().finite(),
        stepped(c, g, c2, g2, reply),
        c2.saved.contains_key(c.current_frame),
    ensures
        c2.saved.dom().finite(),
        c2.saved.dom().len() <= c.allowed_rollback,
{
    let cur = c.current_frame as int;
    assert(!c.saved.contains_key(c.current_frame));
    assert(c.may_speculate());
    assert forall|k: usize| c2.saved.dom().contains(k) implies cur + 1 - c.allowed_rollback <= k
        < cur + 1 by {
        if k != c.current_frame {
            assert(c.saved.contains_key(k));
            if exists|m: usize| is_oldest(c.saved, m) {
                let m = choose|m: usize| is_oldest(c.saved, m);
                assert(m <= k);
            } else {
                let m = lemma_oldest_exists(c.saved.dom(), k);
                assert(is_oldest(c.saved, m));
            }
        }
    }
    lemma_frames_in_range(c2.saved.dom(), cur + 1 - c.allowed_rollback, cur + 1);
}

/// A set of frames that holds `k` has an earliest member at or before `k`.
pub proof fn lemma_oldest_exists(s: Set<usize>, k: usize) -> (m: usize)
    requires
        s.contains(k),
    ensures
        s.contains(m),
        forall|j: usize| s.contains(j) ==> m <= j,
    decreases k,
{
    if exists|j: usize| s.contains(j) && j < k {
        let j = choose|j: usize| s.contains(j) && j < k;
        lemma_oldest_exists(s, j)
    } else {
        k
    }
}

/// Up to the allowed rollback the client advances on canonical inputs only,
/// and takes no snapshot.
pub proof fn lemma_no_speculation_before_allowed<
    I: Clone + Default + PartialEq,
    S,
    G: RollbackableGameState<Input = I, SavedState = S>,
>(c: ClientView<I, S>, g: G, c2: ClientView<I, S>, g2: G, reply: Option<Packet<I>>)
    requires
        stepped(c, g, c2, g2, reply),
        c.current_frame <= c.allowed_rollback,
    ensures
        c2.saved == c.saved,
        c2.current_frame > c.current_frame ==> all_canonical(c.players, c.current_frame as nat),
{
}

/// A tick keeps the players in their places and moves no front back.
pub proof fn lemma_fronts_kept_by_update<
    I: Clone + Default + PartialEq,
    S,
    G: RollbackableGameState<Input = I, SavedState = S>,
>(c: ClientView<I, S>, g: G, c2: ClientView<I, S>, g2: G, reply: Option<Packet<I>>)
    requires
        c.wf(),
        c.current_frame < usize::MAX,
        updated(c, g, c2, g2, reply),
    ensures
        fronts_kept(c.players, c2.players),
        c2.current_frame >= c.current_frame,
{
    let (mid, gm) = choose|mid: ClientView<I, S>, gm: G|
        #[trigger] rewound(c, g, mid, gm) && #[trigger] stepped(mid, gm, c2, g2, reply);
    lemma_rewound_wf(c, g, mid, gm);
    lemma_stepped_wf(mid, gm, c2, g2, reply);
    assert forall|i: int| 0 <= i < c.players.len() implies (#[trigger] c2.players[i]).id
        == c.players[i].id && c2.players[i].history.front >= c.players[i].history.front by {
        assert(mid.players[i].id == c.players[i].id);
        assert(mid.players[i].history.front == c.players[i].history.front);
    }
}

/// A packet keeps the players in their places and the fronts of their
/// histories.
pub proof fn lemma_fronts_kept_by_packet<I: Clone + Default + PartialEq, S>(
    c: ClientView<I, S>,
    packet: Packet<I>,
)
    requires
        c.wf(),
        c.accepts(packet),
    ensures
        fronts_kept(c.players, c.with_packet(packet).players),
        c.with_packet(packet).current_frame == c.current_frame,
{
    match packet {
        Packet::Inputs(sender, sent_on, start, values) => {
            let skipping = ClientView { skip_frames: c.with_packet(packet).skip_frames, ..c };
            let paused = ClientView {
                skip_frames: skip_for(
                    c.current_frame as int,
                    sent_on as int,
                    c.players[c.index_of(sender.0)].delay as int,
                ) as usize,
                ..c
            };
            assert(paused.wf()) by {
                assert(paused.saved_in_past());
                assert forall|i: int| 0 <= i < paused.players.len() implies (
                #[trigger] paused.players[i]).settled(paused.current_frame as nat)
                    && paused.players[i].covered(paused.saved.dom(), paused.rewind_frame()) by {
                    assert(c.players[i].settled(c.current_frame as nat));
                    assert(c.players[i].covered(c.saved.dom(), c.rewind_frame()));
                }
            }
            assert(paused.is_net(sender.0));
            paused.lemma_with_net_inputs_wf(start, values@, sender.0);
        },
        Packet::Request(_) => {},
        Packet::Provide(entries) => {
            c.lemma_with_provided_wf(entries@);
        },
    }
}

/// A local input keeps the players in their places and the fronts of their
/// histories.
pub proof fn lemma_fronts_kept_by_local_input<I, S>(c: ClientView<I, S>, id: usize, v: I)
    requires
        c.wf(),
        c.is_local(id),
    ensures
        fronts_kept(c.players, c.with_local_input(id, v).players),
        c.with_local_input(id, v).current_frame == c.current_frame,
{
    if !c.history(id).is_canonical(c.delayed_frame()) {
        c.history(id).lemma_appended(v);
        c.lemma_with_history(id, c.history(id).appended(v));
        let r = c.with_local_input(id, v);
        assert forall|i: int| 0 <= i < c.players.len() implies (#[trigger] r.players[i]).id
            == c.players[i].id && r.players[i].history.front >= c.players[i].history.front by {
            if i != c.index_of(id) {
                assert(r.players[i] == c.players[i]);
            }
        }
    }
}

/// Registration keeps the players that are there in their places, with
/// their histories.
pub proof fn lemma_fronts_kept_by_registration<I, S>(
    c: ClientView<I, S>,
    id: usize,
    kind: PlayerType,
)
    ensures
        fronts_kept(c.players, c.with_player(id, kind).players),
        c.with_player(id, kind).current_frame == c.current_frame,
{
}

/// With exact clones and a single default, renewed predictions have one
/// outcome.
pub proof fn lemma_repredicted_unique<I: Clone + Default + PartialEq>(
    h: HistoryView<I>,
    a: HistoryView<I>,
    b: HistoryView<I>,
    from: nat,
    to: nat,
)
    requires
        exact_clones::<I>(),
        one_default::<I>(),
        repredicted(h, a, from, to),
        repredicted(h, b, from, to),
    ensures
        a == b,
{
    assert forall|k: int| 0 <= k < a.slots.len() implies a.slots[k] == b.slots[k] by {
        let f = (h.front + k) as nat;
        assert(a.slot(f) == a.slots[k]);
        assert(b.slot(f) == b.slots[k]);
        if from <= f < to && h.slot(f) is Predicted {
            assert(h.predicts(a.slot(f).value()));
            assert(h.predicts(b.slot(f).value()));
            assert(a.slot(f).value() == b.slot(f).value());
        } else {
            assert(a.slot(f) == h.slot(f));
            assert(b.slot(f) == h.slot(f));
        }
    }
    assert(a.slots =~= b.slots);
}

/// With exact clones and a single default, predicting a frame has one
/// outcome.
pub proof fn lemma_predicted_unique<I: Clone + Default + PartialEq>(
    h: HistoryView<I>,
    a: HistoryView<I>,
    b: HistoryView<I>,
    frame: nat,
)
    requires
        exact_clones::<I>(),
        one_default::<I>(),
        predicted_at(h, a, frame),
        predicted_at(h, b, frame),
    ensures
        a == b,
{
    if h.slot(frame) is Empty {
        assert(h.predicts(a.slot(frame).value()));
        assert(h.predicts(b.slot(frame).value()));
        assert(a.slot(frame) == b.slot(frame));
    }
}

/// Determinism: with exact clones and a single default, a tick has one
/// outcome. Two clients in one state, driving simulations in one state, are
/// in one state after it, and so are their simulations.
pub proof fn lemma_update_deterministic<
    I: Clone + Default + PartialEq,
    S,
    G: RollbackableGameState<Input = I, SavedState = S>,
>(
    c: ClientView<I, S>,
    g: G,
    a: ClientView<I, S>,
    ga: G,
    ra: Option<Packet<I>>,
    b: ClientView<I, S>,
    gb: G,
    rb: Option<Packet<I>>,
)
    requires
        exact_clones::<I>(),
        one_default::<I>(),
        updated(c, g, a, ga, ra),
        updated(c, g, b, gb, rb),
    ensures
        a == b,
        ga == gb,
        ra == rb,
{
    let (ma, gma) = choose|mid: ClientView<I, S>, gm: G|
        #[trigger] rewound(c, g, mid, gm) && #[trigger] stepped(mid, gm, a, ga, ra);
    let (mb, gmb) = choose|mid: ClientView<I, S>, gm: G|
        #[trigger] rewound(c, g, mid, gm) && #[trigger] stepped(mid, gm, b, gb, rb);
    assert(ma.players == mb.players) by {
        if c.rollback_to is Some {
            let rewind = c.rollback_to.unwrap().0 as nat;
            let cur = c.current_frame as nat;
            assert forall|i: int| 0 <= i < ma.players.len() implies ma.players[i]
                == mb.players[i] by {
                if c.players[i].kind is Net {
                    lemma_repredicted_unique(
                        c.players[i].history,
                        ma.players[i].history,
                        mb.players[i].history,
                        rewind,
                        cur,
                    );
                }
            }
            assert(ma.players =~= mb.players);
        }
    }
    assert(ma == mb);
    assert(gma == gmb);
    let cur = ma.current_frame as nat;
    assert(a.players == b.players) by {
        if ma.skip_frames == 0 && !all_canonical(ma.players, cur) && ma.may_speculate() {
            assert forall|i: int| 0 <= i < a.players.len() implies a.players[i]
                == b.players[i] by {
                if ma.players[i].kind is Net {
                    lemma_predicted_unique(
                        ma.players[i].history,
                        a.players[i].history,
                        b.players[i].history,
                        cur,
                    );
                }
            }
            assert(a.players =~= b.players);
        }
    }
    assert(a.saved == b.saved);
    assert(a == b);
}

/// `after` is `before` with some of its predictions confirmed: a prediction
/// may have become a canonical input of the same value, and nothing else
/// differs.
pub open spec fn confirmed<I>(before: Seq<PlayerView<I>>, after: Seq<PlayerView<I>>) -> bool {
    &&& after.len() == before.len()
    &&& forall|i: int|
        0 <= i < before.len() ==> {
            &&& (#[trigger] after[i]).history.front == before[i].history.front
            &&& after[i].history.slots.len() == before[i].history.slots.len()
            &&& forall|f: nat|
                before[i].history.contains(f) ==> (#[trigger] after[i].history.slot(f))
                    == before[i].history.slot(f) || (before[i].history.slot(f) is Predicted
                    && after[i].history.slot(f) == Slot::Canonical(
                    before[i].history.slot(f).value(),
                ))
        }
}

/// Rollback after correct predictions: where the inputs that arrive equal
/// the predictions, a replay from the snapshot leads the simulation to the
/// state that it reached on the predictions.
pub proof fn lemma_replay_after_correct_predictions<
    I: Clone + Default + PartialEq,
    S,
    G: RollbackableGameState<Input = I, SavedState = S>,
>(g: G, before: Seq<PlayerView<I>>, after: Seq<PlayerView<I>>, from: nat, to: nat, held: nat)
    requires
        confirmed(before, after),
        forall|i: int| 0 <= i < before.len() ==> (#[trigger] before[i]).history.front <= from,
    ensures
        replayed(G::loaded(g.saved()), after, from, to, held) == replayed(
            g,
            before,
            from,
            to,
            held,
        ),
{
    g.lemma_load_saved();
    assert forall|x: nat| from <= x < to implies #[trigger] input_windows(after, x, held)
        == input_windows(before, x, held) by {
        assert forall|i: int| 0 <= i < before.len() implies slot_values(
            after[i].history.window(x, held),
        ) == slot_values(before[i].history.window(x, held)) by {
            let p = before[i].history;
            let q = after[i].history;
            assert(p.front <= from);
            p.lemma_window(x, held);
            q.lemma_window(x, held);
            let wp = p.window(x, held);
            let wq = q.window(x, held);
            assert forall|k: int| 0 <= k < wp.len() implies wq[k].value() == wp[k].value() by {
                let f = (p.window_first(x, held) + k) as nat;
                assert(wp[k] == p.slot(f));
                assert(wq[k] == q.slot(f));
                assert(p.contains(f));
            }
            assert(slot_values(wq) =~= slot_values(wp));
        }
        assert(input_windows(after, x, held) =~= input_windows(before, x, held));
    }
    lemma_replayed_agrees(G::loaded(g.saved()), after, before, from, to, held);
}

/// A client that differs from one that is within the allowed rollback by
/// having fewer open frames, and no less allowed rollback, is within it too.
pub proof fn lemma_within_allowed_by_subset<I, S>(c: ClientView<I, S>, c2: ClientView<I, S>)
    requires
        c.within_allowed(),
        c2.open_frames().subset_of(c.open_frames()),
        c2.allowed_rollback >= c.allowed_rollback,
    ensures
        c2.within_allowed(),
{
    vstd::set_lib::lemma_len_subset(c2.open_frames(), c.open_frames());
}

/// While it is within the allowed rollback, the client holds no more
/// snapshots than the allowed rollback.
pub proof fn lemma_snapshots_within_allowed<I, S>(c: ClientView<I, S>)
    requires
        c.within_allowed(),
    ensures
        c.saved.dom().finite(),
        c.saved.dom().len() <= c.allowed_rollback,
{
    assert(c.saved.dom().subset_of(c.open_frames()));
    vstd::set_lib::lemma_len_subset(c.saved.dom(), c.open_frames());
}

/// A client as it is made, with or without players, is within the allowed
/// rollback.
pub proof fn lemma_within_allowed_at_start<I, S>(c: ClientView<I, S>)
    requires
        c.wf(),
        c.current_frame == 0,
    ensures
        c.within_allowed(),
{
    assert forall|f: usize| !c.open_frames().contains(f) by {
        if any_predicted(c.players, f as nat) {
            let i = choose|i: int|
                0 <= i < c.players.len() && (#[trigger] c.players[i]).kind is Net
                    && c.players[i].history.is_predicted(f as nat);
            assert(c.players[i].settled(0));
        }
    }
    assert(c.open_frames() =~= Set::empty());
}

/// A local input opens no frame.
pub proof fn lemma_within_allowed_by_local_input<I, S>(c: ClientView<I, S>, id: usize, v: I)
    requires
        c.wf(),
        c.is_local(id),
        c.within_allowed(),
    ensures
        c.with_local_input(id, v).within_allowed(),
{
    let r = c.with_local_input(id, v);
    if !c.history(id).is_canonical(c.delayed_frame()) {
        c.lemma_with_history(id, c.history(id).appended(v));
        assert forall|f: usize| r.open_frames().contains(f) implies c.open_frames().contains(f) by {
            if any_predicted(r.players, f as nat) {
                let i = choose|i: int|
                    0 <= i < r.players.len() && (#[trigger] r.players[i]).kind is Net
                        && r.players[i].history.is_predicted(f as nat);
                assert(c.players[i].kind is Net);
                assert(i != c.index_of(id));
                assert(r.players[i] == c.players[i]);
            }
        }
    }
    lemma_within_allowed_by_subset(c, r);
}

/// An arriving input opens no frame.
pub proof fn lemma_within_allowed_by_net_input<I: Clone + Default + PartialEq, S>(
    c: ClientView<I, S>,
    frame: usize,
    v: I,
    id: usize,
)
    requires
        c.wf(),
        c.is_net(id),
        frame < usize::MAX,
        c.within_allowed(),
    ensures
        c.with_net_input(frame, v, id).within_allowed(),
{
    let r = c.with_net_input(frame, v, id);
    let h = c.history(id);
    if frame >= h.front {
        h.lemma_with_input(frame as nat, v);
        c.lemma_with_history(id, h.with_input(frame as nat, v));
        assert forall|f: usize| r.open_frames().contains(f) implies c.open_frames().contains(f) by {
            if any_predicted(r.players, f as nat) {
                let i = choose|i: int|
                    0 <= i < r.players.len() && (#[trigger] r.players[i]).kind is Net
                        && r.players[i].history.is_predicted(f as nat);
                assert(c.players[i].kind is Net);
                if i == c.index_of(id) {
                    assert(f != frame);
                    assert(r.players[i].history.slot(f as nat) == h.slot(f as nat));
                } else {
                    assert(r.players[i] == c.players[i]);
                }
                assert(c.players[i].history.is_predicted(f as nat));
            }
        }
    }
    lemma_within_allowed_by_subset(c, r);
}

/// A run of arriving inputs opens no frame.
pub proof fn lemma_within_allowed_by_net_inputs<I: Clone + Default + PartialEq, S>(
    c: ClientView<I, S>,
    start: usize,
    values: Seq<I>,
    id: usize,
)
    requires
        c.wf(),
        c.is_net(id),
        start + values.len() <= usize::MAX,
        c.within_allowed(),
    ensures
        c.with_net_inputs(start, values, id).within_allowed(),
    decreases values.len(),
{
    if values.len() > 0 {
        let mid = c.with_net_inputs(start, values.drop_last(), id);
        c.lemma_with_net_inputs_wf(start, values.drop_last(), id);
        lemma_within_allowed_by_net_inputs(c, start, values.drop_last(), id);
        lemma_within_allowed_by_net_input(
            mid,
            (start + values.len() - 1) as usize,
            values.last(),
            id,
        );
    }
}

/// The entries of an answer open no frame.
pub proof fn lemma_within_allowed_by_provided<I: Clone + Default + PartialEq, S>(
    c: ClientView<I, S>,
    entries: Seq<(PlayerHandle, usize, Vec<I>)>,
)
    requires
        c.wf(),
        c.accepts_provided(entries),
        c.within_allowed(),
    ensures
        c.with_provided(entries).within_allowed(),
    decreases entries.len(),
{
    if entries.len() > 0 {
        let mid = c.with_provided(entries.drop_last());
        assert forall|k: int| 0 <= k < entries.drop_last().len() implies c.is_net(
            (#[trigger] entries.drop_last()[k]).0.0,
        ) && entries.drop_last()[k].1 + entries.drop_last()[k].2@.len() <= usize::MAX by {
            assert(c.is_net(entries[k].0.0));
        }
        c.lemma_with_provided_wf(entries.drop_last());
        lemma_within_allowed_by_provided(c, entries.drop_last());
        let e = entries.last();
        assert(c.is_net(entries[entries.len() - 1].0.0));
        c.lemma_is_net_same_players(mid, e.0.0);
        lemma_within_allowed_by_net_inputs(mid, e.1, e.2@, e.0.0);
    }
}

/// A packet opens no frame.
pub proof fn lemma_within_allowed_by_packet<I: Clone + Default + PartialEq, S>(
    c: ClientView<I, S>,
    packet: Packet<I>,
)
    requires
        c.wf(),
        c.accepts(packet),
        c.within_allowed(),
    ensures
        c.with_packet(packet).within_allowed(),
{
    match packet {
        Packet::Inputs(sender, sent_on, start, values) => {
            let paused = ClientView {
                skip_frames: skip_for(
                    c.current_frame as int,
                    sent_on as int,
                    c.players[c.index_of(sender.0)].delay as int,
                ) as usize,
                ..c
            };
            assert(paused.wf()) by {
                assert(paused.saved_in_past());
                assert forall|i: int| 0 <= i < paused.players.len() implies (
                #[trigger] paused.players[i]).settled(paused.current_frame as nat)
                    && paused.players[i].covered(paused.saved.dom(), paused.rewind_frame()) by {
                    assert(c.players[i].settled(c.current_frame as nat));
                    assert(c.players[i].covered(c.saved.dom(), c.rewind_frame()));
                }
            }
            assert(paused.is_net(sender.0));
            assert(paused.open_frames() =~= c.open_frames());
            lemma_within_allowed_by_net_inputs(paused, start, values@, sender.0);
        },
        Packet::Request(_) => {},
        Packet::Provide(entries) => {
            lemma_within_allowed_by_provided(c, entries@);
        },
    }
}

/// A tick keeps the client within the allowed rollback: a rewind opens no
/// frame, and the client advances on a prediction only while the open frames
/// and the current one are no more than the allowed rollback.
pub proof fn lemma_within_allowed_by_update<
    I: Clone + Default + PartialEq,
    S,
    G: RollbackableGameState<Input = I, SavedState = S>,
>(c: ClientView<I, S>, g: G, c2: ClientView<I, S>, g2: G, reply: Option<Packet<I>>)
    requires
        c.wf(),
        c.current_frame < usize::MAX,
        c.within_allowed(),
        updated(c, g, c2, g2, reply),
    ensures
        c2.within_allowed(),
{
    let (mid, gm) = choose|mid: ClientView<I, S>, gm: G|
        #[trigger] rewound(c, g, mid, gm) && #[trigger] stepped(mid, gm, c2, g2, reply);
    lemma_rewound_wf(c, g, mid, gm);
    let cur = c.current_frame as nat;
    assert forall|f: usize| mid.open_frames().contains(f) implies c.open_frames().contains(f) by {
        if c.rollback_to is Some {
            let rewind = c.rollback_to.unwrap().0 as nat;
            lemma_repredicted_any_predicted(
                c.players,
                mid.players,
                rewind,
                cur,
                f as nat,
            );
        }
    }
    lemma_within_allowed_by_subset(c, mid);
    lemma_stepped_wf(mid, gm, c2, g2, reply);
    if mid.skip_frames == 0 && !all_canonical(mid.players, cur) && mid.may_speculate() {
        // Every open frame has a snapshot, and the snapshots are close.
        assert forall|f: usize| c2.open_frames().contains(f) implies cur + 1
            - mid.allowed_rollback <= f < cur + 1 by {
            if f != mid.current_frame {
                if !mid.saved.contains_key(f) {
                    assert(any_predicted(c2.players, f as nat));
                    let i = choose|i: int|
                        0 <= i < c2.players.len() && (#[trigger] c2.players[i]).kind is Net
                            && c2.players[i].history.is_predicted(f as nat);
                    assert(mid.players[i].kind is Net);
                    assert(predicted_at(mid.players[i].history, c2.players[i].history, cur));
                    if mid.players[i].history.slot(cur) is Empty {
                        assert(mid.players[i].settled(cur));
                        mid.players[i].history.lemma_with_slot(
                            cur,
                            c2.players[i].history.slot(cur),
                        );
                    }
                    assert(mid.players[i].history.slot(f as nat) is Predicted);
                    assert(mid.players[i].covered(mid.saved.dom(), mid.rewind_frame()));
                }
                assert(mid.saved.contains_key(f));
                if exists|m: usize| is_oldest(mid.saved, m) {
                    let m = choose|m: usize| is_oldest(mid.saved, m);
                    assert(m <= f);
                } else {
                    let m = lemma_oldest_exists(mid.saved.dom(), f);
                    assert(is_oldest(mid.saved, m));
                }
            }
        }
        let lo: int = cur + 1 - mid.allowed_rollback;
        let hi: int = cur as int + 1;
        let range = Set::new(|f: usize| lo <= f < hi);
        lemma_range_finite(lo, hi);
        assert(c2.open_frames().subset_of(range));
        vstd::set_lib::lemma_len_subset(c2.open_frames(), range);
        lemma_frames_in_range(c2.open_frames(), lo, hi);
    } else {
        assert forall|f: usize| c2.open_frames().contains(f) implies mid.open_frames().contains(
            f,
        ) by {
            if any_predicted(c2.players, f as nat) {
                let i = choose|i: int|
                    0 <= i < c2.players.len() && (#[trigger] c2.players[i]).kind is Net
                        && c2.players[i].history.is_predicted(f as nat);
                assert(mid.players[i].kind is Net);
                if c2.players[i] != mid.players[i] {
                    mid.players[i].history.lemma_cleaned(mid.clean_target());
                }
                assert(mid.players[i].history.is_predicted(f as nat));
            }
        }
        lemma_within_allowed_by_subset(mid, c2);
    }
}

/// Registration opens no frame.
pub proof fn lemma_within_allowed_by_registration<I, S>(
    c: ClientView<I, S>,
    id: usize,
    kind: PlayerType,
)
    requires
        c.within_allowed(),
    ensures
        c.with_player(id, kind).within_allowed(),
{
    let r = c.with_player(id, kind);
    assert forall|f: usize| r.open_frames().contains(f) implies c.open_frames().contains(f) by {
        if any_predicted(r.players, f as nat) {
            let i = choose|i: int|
                0 <= i < r.players.len() && (#[trigger] r.players[i]).kind is Net
                    && r.players[i].history.is_predicted(f as nat);
            assert(i < c.players.len());
            assert(c.players[i] == r.players[i]);
        }
    }
    lemma_within_allowed_by_subset(c, r);
}

/// Setting a transit time opens no frame.
pub proof fn lemma_within_allowed_by_delay<I, S>(c: ClientView<I, S>, id: usize, delay: usize)
    requires
        c.is_registered(id),
        c.within_allowed(),
    ensures
        c.with_delay(id, delay).within_allowed(),
{
    let r = c.with_delay(id, delay);
    assert forall|f: usize| r.open_frames().contains(f) implies c.open_frames().contains(f) by {
        if any_predicted(r.players, f as nat) {
            let i = choose|i: int|
                0 <= i < r.players.len() && (#[trigger] r.players[i]).kind is Net
                    && r.players[i].history.is_predicted(f as nat);
            assert(c.players[i].kind is Net && c.players[i].history.is_predicted(f as nat));
        }
    }
    lemma_within_allowed_by_subset(c, r);
}

/// The frames of a range are finitely many.
pub proof fn lemma_range_finite(lo: int, hi: int)
    ensures
        Set::new(|f: usize| lo <= f < hi).finite(),
    decreases hi - lo,
{
    let s = Set::new(|f: usize| lo <= f < hi);
    if lo >= hi {
        assert(s =~= Set::empty());
    } else {
        lemma_range_finite(lo, hi - 1);
        let smaller = Set::new(|f: usize| lo <= f < hi - 1);
        if 0 <= hi - 1 <= usize::MAX {
            assert(s =~= smaller.insert((hi - 1) as usize));
        } else {
            assert(s =~= smaller);
        }
    }
}

} // verus!
