//! The history of a peer's inputs, with predictions.
//!
//! A slot is empty, predicted or canonical. A prediction keeps the simulation
//! running while the peer's input is in flight; the input that arrives later
//! is compared with it.

use crate::input_history::{is_default, slot_of, slots_hold, slot_holds};
use crate::input_history::{FrameRange, HistoryView, Slot, SlotStatus};
use vstd::prelude::*;
use vstd::std_specs::cmp::PartialEqSpec;

verus! {

/// How an arriving input relates to what the history held for its frame.
#[derive(Clone, Copy, Debug, PartialEq, Eq, Structural)]
pub enum PredictionResult {
    /// The frame held no prediction.
    Unpredicted,
    /// The frame held this input already, as a prediction or as a canonical input.
    Correct,
    /// The frame held a prediction of another value.
    Wrong,
}

/// The index of the last canonical slot of `slots`, or -1 where there is none.
pub open spec fn newest_canonical<T>(slots: Seq<Slot<T>>) -> int
    decreases slots.len(),
{
    if slots.len() == 0 {
        -1
    } else if slots.last() is Canonical {
        slots.len() - 1
    } else {
        newest_canonical(slots.drop_last())
    }
}

/// `newest_canonical` gives a canonical slot after which none is canonical.
pub proof fn lemma_newest_canonical<T>(slots: Seq<Slot<T>>)
    ensures
        -1 <= newest_canonical(slots) < slots.len(),
        newest_canonical(slots) >= 0 ==> slots[newest_canonical(slots)] is Canonical,
        forall|i: int| newest_canonical(slots) < i < slots.len() ==> !(#[trigger] slots[i] is Canonical),
    decreases slots.len(),
{
    if slots.len() > 0 && !(slots.last() is Canonical) {
        lemma_newest_canonical(slots.drop_last());
        assert forall|i: int| newest_canonical(slots) < i < slots.len() implies !(
        #[trigger] slots[i] is Canonical) by {
            if i < slots.len() - 1 {
                assert(slots.drop_last()[i] == slots[i]);
            }
        }
    }
}

/// Two windows with the same statuses have their newest canonical slot at
/// the same place.
pub proof fn lemma_newest_canonical_by_status<T>(a: Seq<Slot<T>>, b: Seq<Slot<T>>)
    requires
        a.len() == b.len(),
        forall|i: int| 0 <= i < a.len() ==> (#[trigger] a[i] is Canonical <==> b[i] is Canonical),
    ensures
        newest_canonical(a) == newest_canonical(b),
    decreases a.len(),
{
    if a.len() > 0 {
        assert(a.last() is Canonical <==> b.last() is Canonical);
        if !(a.last() is Canonical) {
            assert forall|i: int| 0 <= i < a.drop_last().len() implies (
            #[trigger] a.drop_last()[i] is Canonical <==> b.drop_last()[i] is Canonical) by {
                assert(a[i] is Canonical <==> b[i] is Canonical);
            }
            lemma_newest_canonical_by_status(a.drop_last(), b.drop_last());
        }
    }
}

impl<T: Clone + Default + PartialEq> HistoryView<T> {
    /// `v` may stand in for a missing input: it is a clone of the newest
    /// canonical input of the window, or a default value where the window
    /// holds no canonical input.
    pub open spec fn predicts(self, v: T) -> bool {
        let k = newest_canonical(self.slots);
        if k >= 0 {
            cloned(self.slots[k].value(), v)
        } else {
            is_default(v)
        }
    }

    /// What the arrival of `v` for `frame` reports.
    pub open spec fn prediction_result(self, frame: nat, v: T) -> PredictionResult {
        match self.slot(frame) {
            Slot::Empty => PredictionResult::Unpredicted,
            Slot::Predicted(x) => if x.eq_spec(&v) {
                PredictionResult::Correct
            } else {
                PredictionResult::Wrong
            },
            Slot::Canonical(_) => PredictionResult::Correct,
        }
    }

    /// The history after `v` arrived for `frame`: an empty slot and a wrong
    /// prediction take `v`, a correct prediction is confirmed, and a canonical
    /// slot keeps what it has.
    pub open spec fn with_input(self, frame: nat, v: T) -> Self {
        match self.slot(frame) {
            Slot::Empty => self.with_slot(frame, Slot::Canonical(v)),
            Slot::Predicted(x) => if x.eq_spec(&v) {
                self.with_slot(frame, Slot::Canonical(x))
            } else {
                self.with_slot(frame, Slot::Canonical(v))
            },
            Slot::Canonical(_) => self,
        }
    }
}

impl<T: Clone + Default + PartialEq> HistoryView<T> {
    /// An arriving input makes the slot of its frame canonical and changes no
    /// other slot.
    pub proof fn lemma_with_input(self, frame: nat, v: T)
        requires
            frame >= self.front,
        ensures
            self.with_input(frame, v).front == self.front,
            self.with_input(frame, v).end() >= self.end(),
            self.with_input(frame, v).end() == if frame < self.end() {
                self.end()
            } else {
                frame + 1
            },
            self.with_input(frame, v).is_canonical(frame),
            self.slot(frame) is Empty ==> self.with_input(frame, v).slot(frame) == Slot::Canonical(
                v,
            ),
            self.slot(frame) is Canonical ==> self.with_input(frame, v) == self,
            forall|g: nat| g != frame ==> #[trigger] self.with_input(frame, v).slot(g) == self.slot(g),
    {
        self.lemma_with_slot(frame, Slot::Canonical(v));
        if self.slot(frame) is Predicted {
            self.lemma_with_slot(frame, Slot::Canonical(self.slot(frame).value()));
        }
    }

    /// Once a canonical input stands for a frame, a later input for the frame
    /// changes nothing and is reported as correct, whatever its value.
    pub proof fn lemma_first_canonical_stays(self, frame: nat, v: T, later: T)
        requires
            frame >= self.front,
        ensures
            self.with_input(frame, v).with_input(frame, later) == self.with_input(frame, v),
            self.with_input(frame, v).prediction_result(frame, later) == PredictionResult::Correct,
            self.slot(frame) is Empty ==> self.with_input(frame, v).with_input(frame, later).slot(
                frame,
            ) == Slot::Canonical(v),
    {
        self.lemma_with_input(frame, v);
        self.with_input(frame, v).lemma_with_input(frame, later);
    }
}

/// `after` is `before` with the predictions of the frames `[from, to)`
/// renewed from the newest canonical input, and nothing else changed.
pub open spec fn repredicted<T: Clone + Default + PartialEq>(
    before: HistoryView<T>,
    after: HistoryView<T>,
    from: nat,
    to: nat,
) -> bool {
    &&& after.front == before.front
    &&& after.slots.len() == before.slots.len()
    &&& forall|f: nat|
        from <= f < to && before.slot(f) is Predicted ==> #[trigger] after.slot(f) is Predicted
            && before.predicts(after.slot(f).value())
    &&& forall|f: nat|
        !(from <= f < to && before.slot(f) is Predicted) ==> #[trigger] after.slot(f)
            == before.slot(f)
}

/// `after` is `before` with a prediction in the slot of `frame` where that
/// slot was empty, and unchanged where it was not.
pub open spec fn predicted_at<T: Clone + Default + PartialEq>(
    before: HistoryView<T>,
    after: HistoryView<T>,
    frame: nat,
) -> bool {
    if before.slot(frame) is Empty {
        &&& after.slot(frame) is Predicted
        &&& before.predicts(after.slot(frame).value())
        &&& after == before.with_slot(frame, after.slot(frame))
    } else {
        after == before
    }
}

/// Renewed predictions leave the statuses of the slots, and with them what
/// may stand in for a missing input, as they were.
pub proof fn lemma_repredicted_predicts<T: Clone + Default + PartialEq>(
    before: HistoryView<T>,
    after: HistoryView<T>,
    from: nat,
    to: nat,
    v: T,
)
    requires
        repredicted(before, after, from, to),
    ensures
        after.predicts(v) == before.predicts(v),
        forall|f: nat| #[trigger] after.slot(f).status() == before.slot(f).status(),
{
    assert forall|f: nat| #[trigger] after.slot(f).status() == before.slot(f).status() by {
        if from <= f < to && before.slot(f) is Predicted {
            assert(after.slot(f) is Predicted);
        } else {
            assert(after.slot(f) == before.slot(f));
        }
    }
    assert forall|i: int| 0 <= i < before.slots.len() implies (
    #[trigger] before.slots[i] is Canonical <==> after.slots[i] is Canonical) by {
        let f = (before.front + i) as nat;
        assert(after.slot(f).status() == before.slot(f).status());
    }
    lemma_newest_canonical_by_status(before.slots, after.slots);
    lemma_newest_canonical(before.slots);
    let k = newest_canonical(before.slots);
    if k >= 0 {
        let f = (before.front + k) as nat;
        assert(after.slot(f) == before.slot(f));
    }
}

/// Renewing the predictions of one more frame extends a renewal.
pub proof fn lemma_repredicted_extends<T: Clone + Default + PartialEq>(
    before: HistoryView<T>,
    mid: HistoryView<T>,
    after: HistoryView<T>,
    from: nat,
    to: nat,
)
    requires
        from <= to,
        repredicted(before, mid, from, to),
        repredicted(mid, after, to, to + 1),
    ensures
        repredicted(before, after, from, to + 1),
{
    assert forall|f: nat| from <= f < to + 1 && before.slot(f) is Predicted implies #[trigger]
        after.slot(f) is Predicted && before.predicts(after.slot(f).value()) by {
        lemma_repredicted_predicts(before, mid, from, to, after.slot(f).value());
        if f < to {
            assert(mid.slot(f) is Predicted);
            assert(after.slot(f) == mid.slot(f));
        } else {
            assert(mid.slot(f) == before.slot(f));
            assert(after.slot(f) is Predicted);
        }
    }
    assert forall|f: nat| !(from <= f < to + 1 && before.slot(f) is Predicted) implies #[trigger]
        after.slot(f) == before.slot(f) by {
        assert(mid.slot(f) == before.slot(f));
        assert(after.slot(f) == mid.slot(f));
    }
}

/// A history of a peer's inputs.
#[derive(Debug)]
pub struct NetworkedHistory<T> {
    front_frame: usize,
    canon: Vec<SlotStatus>,
    data: Vec<T>,
}

impl<T> View for NetworkedHistory<T> {
    type V = HistoryView<T>;

    closed spec fn view(&self) -> HistoryView<T> {
        HistoryView {
            front: self.front_frame as nat,
            slots: Seq::new(self.data@.len(), |i: int| slot_of(self.canon@[i], self.data@[i])),
        }
    }
}

impl<T: Default + Clone + PartialEq> NetworkedHistory<T> {
    /// The representation is sound: both buffers run in parallel, the window
    /// ends within the machine's frame range and empty slots hold defaults.
    pub closed spec fn wf(&self) -> bool {
        &&& self.canon@.len() == self.data@.len()
        &&& self.front_frame + self.data@.len() <= usize::MAX
        &&& forall|i: int|
            0 <= i < self.data@.len() ==> (#[trigger] self.canon@[i] is Empty ==> is_default(
                self.data@[i],
            ))
    }

    /// The window of a well-formed history ends within the machine's frame range.
    pub proof fn lemma_wf_view(&self)
        requires
            self.wf(),
        ensures
            self@.end() <= usize::MAX,
    {
    }

    /// An empty history that starts at frame 0.
    pub fn new() -> (h: Self)
        ensures
            h.wf(),
            h@.front == 0,
            h@.slots.len() == 0,
    {
        Self { front_frame: 0, canon: Vec::new(), data: Vec::new() }
    }

    /// The offset of `frame` from the front, if `frame` is not before it.
    pub fn adjust_frame(&self, frame: usize) -> (offset: Option<usize>)
        requires
            self.wf(),
        ensures
            frame >= self@.front ==> offset == Some((frame - self@.front) as usize),
            frame < self@.front ==> offset is None,
    {
        if frame >= self.front_frame {
            Some(frame - self.front_frame)
        } else {
            None
        }
    }

    /// The front of the window.
    pub fn front(&self) -> (f: usize)
        requires
            self.wf(),
        ensures
            f == self@.front,
    {
        self.front_frame
    }

    /// The number of slots in the window.
    pub fn len(&self) -> (n: usize)
        requires
            self.wf(),
        ensures
            n == self@.slots.len(),
    {
        self.data.len()
    }

    /// Grows the window with empty slots until it has `len` slots.
    fn pad_to(&mut self, len: usize)
        requires
            old(self).wf(),
            old(self)@.front + len <= usize::MAX,
        ensures
            final(self).wf(),
            final(self)@ == old(self)@.padded_to(old(self)@.front + len as nat),
    {
        while self.data.len() < len
            invariant
                self.wf(),
                self.front_frame == old(self).front_frame,
                self.front_frame + len <= usize::MAX,
                old(self).data@.len() <= self.data@.len(),
                self.data@.len() <= len || self.data@.len() == old(self).data@.len(),
                forall|i: int|
                    0 <= i < old(self).data@.len() ==> self@.slots[i] == old(self)@.slots[i],
                forall|i: int|
                    old(self).data@.len() <= i < self.data@.len() ==> self@.slots[i] is Empty,
            decreases len - self.data@.len(),
        {
            let ghost before = self@;
            self.canon.push(SlotStatus::Empty);
            self.data.push(T::default());
            proof {
                assert forall|i: int| 0 <= i < before.slots.len() implies #[trigger] self@.slots[i]
                    == before.slots[i] by {}
                assert forall|i: int|
                    old(self).data@.len() <= i < self.data@.len() implies #[trigger] self@.slots[i] is Empty by {
                    if i < before.slots.len() {
                        assert(before.slots[i] is Empty);
                    }
                }
            }
        }
        proof {
            assert(self@.slots =~= old(self)@.padded_to(old(self)@.front + len as nat).slots);
        }
    }

    /// Writes `slot`'s status and `data` at the offset `relative_frame`,
    /// padding the window with empty slots up to it.
    fn put(&mut self, relative_frame: usize, status: SlotStatus, data: T)
        requires
            old(self).wf(),
            old(self)@.front + relative_frame < usize::MAX,
            !(status is Empty),
        ensures
            final(self).wf(),
            final(self)@ == old(self)@.with_slot(
                old(self)@.front + relative_frame as nat,
                slot_of(status, data),
            ),
    {
        let ghost target = old(self)@.with_slot(
            old(self)@.front + relative_frame as nat,
            slot_of(status, data),
        );
        if relative_frame >= self.data.len() {
            self.pad_to(relative_frame);
            self.canon.push(status);
            self.data.push(data);
        } else {
            self.canon.set(relative_frame, status);
            self.data.set(relative_frame, data);
        }
        proof {
            assert(self@.slots =~= target.slots);
        }
    }

    /// Records the peer's input for `frame` and reports how it relates to
    /// what the history held there.
    pub fn add_input(&mut self, frame: usize, data: T) -> (result: PredictionResult)
        requires
            old(self).wf(),
            T::obeys_eq_spec(),
            frame >= old(self)@.front,
            frame < usize::MAX,
        ensures
            final(self).wf(),
            result == old(self)@.prediction_result(frame as nat, data),
            final(self)@ == old(self)@.with_input(frame as nat, data),
    {
        let relative_frame = frame - self.front_frame;
        if relative_frame >= self.data.len() {
            self.put(relative_frame, SlotStatus::Canonical, data);
            PredictionResult::Unpredicted
        } else {
            match self.canon[relative_frame] {
                SlotStatus::Empty => {
                    self.put(relative_frame, SlotStatus::Canonical, data);
                    PredictionResult::Unpredicted
                },
                SlotStatus::Predicted => {
                    if self.data[relative_frame] == data {
                        self.canon.set(relative_frame, SlotStatus::Canonical);
                        proof {
                            assert(self@.slots =~= old(self)@.with_input(frame as nat, data).slots);
                        }
                        PredictionResult::Correct
                    } else {
                        self.put(relative_frame, SlotStatus::Canonical, data);
                        PredictionResult::Wrong
                    }
                },
                SlotStatus::Canonical => PredictionResult::Correct,
            }
        }
    }

    /// The status of the slot of `frame`; a frame outside the window is empty.
    fn status_at(&self, frame: usize) -> (s: SlotStatus)
        requires
            self.wf(),
        ensures
            s == self@.slot(frame as nat).status(),
    {
        if frame < self.front_frame {
            return SlotStatus::Empty;
        }
        let relative_frame = frame - self.front_frame;
        if relative_frame >= self.canon.len() {
            return SlotStatus::Empty;
        }
        self.canon[relative_frame]
    }

    /// Whether a canonical input is stored for `frame`.
    pub fn has_input(&self, frame: usize) -> (b: bool)
        requires
            self.wf(),
        ensures
            b == self@.is_canonical(frame as nat),
    {
        match self.status_at(frame) {
            SlotStatus::Canonical => true,
            _ => false,
        }
    }

    /// Whether the slot of `frame` holds a prediction.
    pub fn is_predicted_input(&self, frame: usize) -> (b: bool)
        requires
            self.wf(),
        ensures
            b == self@.is_predicted(frame as nat),
    {
        match self.status_at(frame) {
            SlotStatus::Predicted => true,
            _ => false,
        }
    }

    /// Whether nothing is stored for `frame`.
    pub fn is_empty_input(&self, frame: usize) -> (b: bool)
        requires
            self.wf(),
        ensures
            b == self@.is_empty(frame as nat),
    {
        match self.status_at(frame) {
            SlotStatus::Empty => true,
            _ => false,
        }
    }

    /// A value to stand in for a missing input: the newest canonical input,
    /// or a default where there is none.
    fn prediction(&self) -> (v: T)
        requires
            self.wf(),
        ensures
            self@.predicts(v),
    {
        let mut i: usize = self.canon.len();
        proof {
            assert(self@.slots.take(i as int) =~= self@.slots);
        }
        while i > 0
            invariant
                self.wf(),
                i <= self.canon@.len(),
                newest_canonical(self@.slots) == newest_canonical(self@.slots.take(i as int)),
            decreases i,
        {
            i = i - 1;
            proof {
                let s = self@.slots.take(i + 1);
                assert(s.last() == self@.slots[i as int]);
                assert(s.drop_last() =~= self@.slots.take(i as int));
            }
            match self.canon[i] {
                SlotStatus::Canonical => {
                    return self.data[i].clone();
                },
                _ => {},
            }
        }
        proof {
            assert(self@.slots.take(0).len() == 0);
        }
        T::default()
    }

    /// Fills the slot of `frame` with a prediction, padding the window with
    /// empty slots up to it. A canonical slot stays as it is.
    pub fn predict(&mut self, frame: usize)
        requires
            old(self).wf(),
            frame >= old(self)@.front,
            frame < usize::MAX,
        ensures
            final(self).wf(),
            old(self)@.is_canonical(frame as nat) ==> final(self)@ == old(self)@,
            !old(self)@.is_canonical(frame as nat) ==> {
                &&& final(self)@.is_predicted(frame as nat)
                &&& old(self)@.predicts(final(self)@.slot(frame as nat).value())
                &&& final(self)@ == old(self)@.with_slot(
                    frame as nat,
                    final(self)@.slot(frame as nat),
                )
            },
    {
        if !self.has_input(frame) {
            let v = self.prediction();
            let relative_frame = frame - self.front_frame;
            self.put(relative_frame, SlotStatus::Predicted, v);
        }
    }

    /// Renews the prediction in the slot of `frame` from the newest canonical
    /// input. A slot that holds no prediction stays as it is.
    pub fn repredict(&mut self, frame: usize)
        requires
            old(self).wf(),
        ensures
            final(self).wf(),
            !old(self)@.is_predicted(frame as nat) ==> final(self)@ == old(self)@,
            old(self)@.is_predicted(frame as nat) ==> {
                &&& final(self)@.is_predicted(frame as nat)
                &&& old(self)@.predicts(final(self)@.slot(frame as nat).value())
                &&& final(self)@ == old(self)@.with_slot(
                    frame as nat,
                    final(self)@.slot(frame as nat),
                )
            },
            repredicted(old(self)@, final(self)@, frame as nat, (frame + 1) as nat),
    {
        if self.is_predicted_input(frame) {
            let v = self.prediction();
            let relative_frame = frame - self.front_frame;
            self.put(relative_frame, SlotStatus::Predicted, v);
            proof {
                old(self)@.lemma_with_slot(frame as nat, self@.slot(frame as nat));
            }
        }
    }

    /// Up to `amt` trailing entries that end at `frame`, or at the last slot
    /// where the window ends before `frame`, with the frames they cover.
    pub fn get_inputs(&self, frame: usize, amt: usize) -> (r: (FrameRange, &[T]))
        requires
            self.wf(),
            frame >= self@.front,
        ensures
            r.0.first == self@.window_first(frame as nat, amt as nat),
            r.0.end == self@.window_end(frame as nat),
            slots_hold(self@.window(frame as nat, amt as nat), r.1@),
            r.1@.len() == r.0.end - r.0.first,
            forall|i: int|
                0 <= i < r.1@.len() ==> slot_holds(
                    self@.slot((r.0.first + i) as nat),
                    #[trigger] r.1@[i],
                ),
    {
        let relative_frame = frame - self.front_frame;
        let len = self.data.len();
        let end_idx: usize = if relative_frame < len {
            relative_frame + 1
        } else {
            len
        };
        let start_idx: usize = if end_idx >= amt {
            end_idx - amt
        } else {
            0
        };
        let slice = vstd::slice::slice_subrange(self.data.as_slice(), start_idx, end_idx);
        let range = FrameRange { first: self.front_frame + start_idx, end: self.front_frame + end_idx };
        proof {
            let w = self@.window(frame as nat, amt as nat);
            assert(w.len() == slice@.len());
            assert forall|i: int| 0 <= i < w.len() implies slot_holds(#[trigger] w[i], slice@[i]) by {
                assert(w[i] == self@.slots[start_idx + i]);
                assert(slice@[i] == self.data@[start_idx + i]);
            }
            assert forall|i: int| 0 <= i < slice@.len() implies slot_holds(
                self@.slot((range.first + i) as nat),
                #[trigger] slice@[i],
            ) by {
                assert(self@.slot((range.first + i) as nat) == w[i]);
            }
        }
        (range, slice)
    }

    /// Drops the slots before `frame` and moves the front there; does nothing
    /// where `frame` is at or before the front.
    pub fn clean(&mut self, frame: usize)
        requires
            old(self).wf(),
        ensures
            final(self).wf(),
            final(self)@ == old(self)@.cleaned(frame as nat),
            final(self)@.front >= old(self)@.front,
            frame <= old(self)@.front ==> final(self)@ == old(self)@,
    {
        proof {
            old(self)@.lemma_cleaned(frame as nat);
        }
        if frame > self.front_frame {
            let front_elements = frame - self.front_frame;
            if front_elements < self.data.len() {
                let kept_data = self.data.split_off(front_elements);
                let kept_canon = self.canon.split_off(front_elements);
                self.data = kept_data;
                self.canon = kept_canon;
            } else {
                self.data = Vec::new();
                self.canon = Vec::new();
            }
            self.front_frame = frame;
            proof {
                assert(self@.slots =~= old(self)@.cleaned(frame as nat).slots);
            }
        }
    }
}

} // verus!
