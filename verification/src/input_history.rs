//! Frame-indexed input histories.
//!
//! A history maps the absolute frames `[front, front + len)` to slots. The
//! front only ever moves forward, and the window has no holes: a frame that
//! was skipped over holds an empty slot with a default value.

use vstd::prelude::*;

pub mod networked_history;

verus! {

/// What a slot of a history holds.
#[derive(Clone, Copy, Debug, PartialEq, Eq, Structural)]
pub enum SlotStatus {
    /// A placeholder: no input is known for the frame.
    Empty,
    /// A provisional value that stands in for the peer's input.
    Predicted,
    /// The authoritative input of the frame.
    Canonical,
}

/// The mathematical content of one slot.
pub enum Slot<T> {
    Empty,
    Predicted(T),
    Canonical(T),
}

impl<T> Slot<T> {
    /// What the slot holds, without the input.
    pub open spec fn status(self) -> SlotStatus {
        match self {
            Slot::Empty => SlotStatus::Empty,
            Slot::Predicted(_) => SlotStatus::Predicted,
            Slot::Canonical(_) => SlotStatus::Canonical,
        }
    }

    /// The input that the slot carries; meaningful for a slot that is not empty.
    pub open spec fn value(self) -> T {
        match self {
            Slot::Empty => arbitrary(),
            Slot::Predicted(v) => v,
            Slot::Canonical(v) => v,
        }
    }
}

/// `v` is a value that `T::default()` may return.
pub open spec fn is_default<T: Default>(v: T) -> bool {
    call_ensures(T::default, (), v)
}

/// The stored value `v` agrees with the slot: it is the slot's input, or a
/// default value where the slot is empty.
pub open spec fn slot_holds<T: Default>(slot: Slot<T>, v: T) -> bool {
    match slot {
        Slot::Empty => is_default(v),
        Slot::Predicted(x) => v == x,
        Slot::Canonical(x) => v == x,
    }
}

/// The slot that a status and a stored value stand for.
pub open spec fn slot_of<T>(status: SlotStatus, v: T) -> Slot<T> {
    match status {
        SlotStatus::Empty => Slot::Empty,
        SlotStatus::Predicted => Slot::Predicted(v),
        SlotStatus::Canonical => Slot::Canonical(v),
    }
}

/// The mathematical model of a history: slot `i` belongs to frame `front + i`.
pub struct HistoryView<T> {
    pub front: nat,
    pub slots: Seq<Slot<T>>,
}

impl<T> HistoryView<T> {
    /// The first frame past the window.
    pub open spec fn end(self) -> nat {
        self.front + self.slots.len()
    }

    /// The window covers `frame`.
    pub open spec fn contains(self, frame: nat) -> bool {
        self.front <= frame < self.end()
    }

    /// The slot of `frame`; a frame outside the window counts as empty.
    pub open spec fn slot(self, frame: nat) -> Slot<T> {
        if self.contains(frame) {
            self.slots[frame - self.front]
        } else {
            Slot::Empty
        }
    }

    /// The slot of `frame` holds a canonical input.
    pub open spec fn is_canonical(self, frame: nat) -> bool {
        self.slot(frame) is Canonical
    }

    /// The slot of `frame` holds a prediction.
    pub open spec fn is_predicted(self, frame: nat) -> bool {
        self.slot(frame) is Predicted
    }

    /// Nothing is stored for `frame`.
    pub open spec fn is_empty(self, frame: nat) -> bool {
        self.slot(frame) is Empty
    }

    /// The history with a canonical input appended at the tail.
    pub open spec fn appended(self, v: T) -> Self {
        HistoryView { front: self.front, slots: self.slots.push(Slot::Canonical(v)) }
    }

    /// The window grown with empty slots until it reaches up to `frame`
    /// (exclusive); unchanged where it already does.
    pub open spec fn padded_to(self, frame: nat) -> Self {
        if frame > self.end() {
            HistoryView {
                front: self.front,
                slots: self.slots + Seq::new((frame - self.end()) as nat, |i: int| Slot::Empty),
            }
        } else {
            self
        }
    }

    /// The history with the slot of `frame` replaced; `frame` is at or after
    /// the front, and the window is padded with empty slots up to it.
    pub open spec fn with_slot(self, frame: nat, slot: Slot<T>) -> Self {
        let p = self.padded_to(frame);
        if frame == p.end() {
            HistoryView { front: p.front, slots: p.slots.push(slot) }
        } else {
            HistoryView { front: p.front, slots: p.slots.update(frame - p.front, slot) }
        }
    }

    /// The history after the slots before `target` are dropped.
    pub open spec fn cleaned(self, target: nat) -> Self {
        if target > self.front {
            HistoryView {
                front: target,
                slots: if target < self.end() {
                    self.slots.skip(target - self.front)
                } else {
                    Seq::empty()
                },
            }
        } else {
            self
        }
    }

    /// The history after a first-writer-wins insert at `frame`: a canonical
    /// slot is kept, any other slot takes the new input.
    pub open spec fn with_first_write(self, frame: nat, v: T) -> Self {
        if self.is_canonical(frame) {
            self
        } else {
            self.with_slot(frame, Slot::Canonical(v))
        }
    }

    /// One past the last frame of the slice that a read ending at `frame` gives.
    pub open spec fn window_end(self, frame: nat) -> nat {
        if frame + 1 < self.end() {
            frame + 1
        } else {
            self.end()
        }
    }

    /// The first frame of the slice of at most `amt` slots that ends at `frame`.
    pub open spec fn window_first(self, frame: nat, amt: nat) -> nat {
        let e = self.window_end(frame);
        if e - self.front >= amt {
            (e - amt) as nat
        } else {
            self.front
        }
    }

    /// The slots of the slice of at most `amt` slots that ends at `frame`.
    pub open spec fn window(self, frame: nat, amt: nat) -> Seq<Slot<T>> {
        self.slots.subrange(
            self.window_first(frame, amt) - self.front,
            self.window_end(frame) - self.front,
        )
    }

    /// No slot of the window is a prediction.
    pub open spec fn no_predictions(self) -> bool {
        forall|i: int| 0 <= i < self.slots.len() ==> !(#[trigger] self.slots[i] is Predicted)
    }
}

impl<T> HistoryView<T> {
    /// Replacing the slot of a frame changes that slot only, and lets the
    /// window end after it.
    pub proof fn lemma_with_slot(self, frame: nat, slot: Slot<T>)
        requires
            frame >= self.front,
        ensures
            self.with_slot(frame, slot).front == self.front,
            self.with_slot(frame, slot).end() == if frame < self.end() {
                self.end()
            } else {
                frame + 1
            },
            forall|g: nat|
                #[trigger] self.with_slot(frame, slot).slot(g) == if g == frame {
                    slot
                } else {
                    self.slot(g)
                },
    {
        let w = self.with_slot(frame, slot);
        assert forall|g: nat| #[trigger] w.slot(g) == if g == frame {
            slot
        } else {
            self.slot(g)
        } by {
            if w.contains(g) && g != frame && self.contains(g) {
                assert(w.slots[g - self.front] == self.slots[g - self.front]);
            }
        }
    }

    /// Appending changes the slot of the frame at the end only.
    pub proof fn lemma_appended(self, v: T)
        ensures
            self.appended(v).front == self.front,
            self.appended(v).end() == self.end() + 1,
            forall|g: nat|
                #[trigger] self.appended(v).slot(g) == if g == self.end() {
                    Slot::Canonical(v)
                } else {
                    self.slot(g)
                },
    {
        let w = self.appended(v);
        assert forall|g: nat| #[trigger] w.slot(g) == if g == self.end() {
            Slot::Canonical(v)
        } else {
            self.slot(g)
        } by {
            if self.contains(g) {
                assert(w.slots[g - self.front] == self.slots[g - self.front]);
            }
        }
    }

    /// Cleaning empties the frames before the target, keeps the others, and
    /// never moves the front back.
    pub proof fn lemma_cleaned(self, target: nat)
        ensures
            self.cleaned(target).front == if target > self.front {
                target
            } else {
                self.front
            },
            self.cleaned(target).front >= self.front,
            self.cleaned(target).end() == if target > self.end() {
                target
            } else {
                self.end()
            },
            target <= self.front ==> self.cleaned(target) == self,
            forall|g: nat|
                #[trigger] self.cleaned(target).slot(g) == if g < target {
                    Slot::Empty
                } else {
                    self.slot(g)
                },
    {
        let w = self.cleaned(target);
        assert forall|g: nat| #[trigger] w.slot(g) == if g < target {
            Slot::Empty
        } else {
            self.slot(g)
        } by {
            if target > self.front && target < self.end() && g >= target && g < self.end() {
                assert(w.slots[g - target] == self.slots[g - self.front]);
            }
        }
    }

    /// The slots of a window are the slots of its frames.
    pub proof fn lemma_window(self, frame: nat, amt: nat)
        requires
            frame >= self.front,
        ensures
            self.front <= self.window_first(frame, amt) <= self.window_end(frame) <= self.end(),
            self.window_end(frame) <= frame + 1,
            self.window(frame, amt).len() == self.window_end(frame) - self.window_first(
                frame,
                amt,
            ),
            self.window(frame, amt).len() <= amt,
            forall|i: int|
                0 <= i < self.window(frame, amt).len() ==> #[trigger] self.window(frame, amt)[i]
                    == self.slot((self.window_first(frame, amt) + i) as nat),
    {
    }
}

impl<T> HistoryView<T> {
    /// Two histories of one extent that agree on the frames up to `frame`
    /// give the same window ending there.
    pub proof fn lemma_window_agrees(self, other: Self, frame: nat, amt: nat)
        requires
            self.front == other.front,
            self.slots.len() == other.slots.len(),
            frame >= self.front,
            forall|f: nat| f <= frame ==> #[trigger] self.slot(f) == other.slot(f),
        ensures
            self.window(frame, amt) == other.window(frame, amt),
            self.window_first(frame, amt) == other.window_first(frame, amt),
            self.window_end(frame) == other.window_end(frame),
    {
        self.lemma_window(frame, amt);
        other.lemma_window(frame, amt);
        let a = self.window(frame, amt);
        let b = other.window(frame, amt);
        assert forall|i: int| 0 <= i < a.len() implies a[i] == b[i] by {
            let f = (self.window_first(frame, amt) + i) as nat;
            assert(a[i] == self.slot(f));
            assert(b[i] == other.slot(f));
        }
        assert(a =~= b);
    }
}

/// `values` is what a read of the slots `slots` hands out.
pub open spec fn slots_hold<T: Default>(slots: Seq<Slot<T>>, values: Seq<T>) -> bool {
    &&& values.len() == slots.len()
    &&& forall|i: int| 0 <= i < slots.len() ==> slot_holds(#[trigger] slots[i], values[i])
}

/// The absolute frames `[first, end)` that a slice of a history covers.
#[derive(Clone, Copy, Debug, PartialEq, Eq, Structural)]
pub struct FrameRange {
    /// The frame of the slice's first entry.
    pub first: usize,
    /// One past the frame of the slice's last entry.
    pub end: usize,
}

/// A history of inputs in which a slot is either filled or empty.
#[derive(Debug)]
pub struct InputHistory<T> {
    front_frame: usize,
    canon: Vec<SlotStatus>,
    data: Vec<T>,
}

impl<T> View for InputHistory<T> {
    type V = HistoryView<T>;

    closed spec fn view(&self) -> HistoryView<T> {
        HistoryView {
            front: self.front_frame as nat,
            slots: Seq::new(self.data@.len(), |i: int| slot_of(self.canon@[i], self.data@[i])),
        }
    }
}

impl<T: Default + Clone> InputHistory<T> {
    /// The representation is sound: both buffers run in parallel, the window
    /// ends within the machine's frame range, empty slots hold defaults and
    /// no slot is a prediction.
    pub closed spec fn wf(&self) -> bool {
        &&& self.canon@.len() == self.data@.len()
        &&& self.front_frame + self.data@.len() <= usize::MAX
        &&& forall|i: int|
            0 <= i < self.data@.len() ==> (#[trigger] self.canon@[i] is Empty ==> is_default(
                self.data@[i],
            ))
        &&& forall|i: int| 0 <= i < self.data@.len() ==> !(#[trigger] self.canon@[i] is Predicted)
    }

    /// A well-formed history fits the machine and holds no prediction.
    pub proof fn lemma_wf_view(&self)
        requires
            self.wf(),
        ensures
            self@.end() <= usize::MAX,
            self@.no_predictions(),
    {
    }

    /// An empty history that starts at frame 0.
    pub fn new() -> (h: Self)
        ensures
            h.wf(),
            h@.front == 0,
            h@.slots.len() == 0,
    {
        Self { front_frame: 0, canon: Vec::new(), data: Vec::new() }
    }

    /// The offset of `frame` from the front.
    pub fn adjust_frame(&self, frame: usize) -> (offset: usize)
        requires
            self.wf(),
            frame >= self@.front,
        ensures
            offset == frame - self@.front,
    {
        frame - self.front_frame
    }

    /// The frame of the slot at `idx`.
    pub fn adjust_index(&self, idx: usize) -> (frame: usize)
        requires
            self.wf(),
            idx + self@.front <= usize::MAX,
        ensures
            frame == idx + self@.front,
    {
        idx + self.front_frame
    }

    /// The front of the window.
    pub fn front(&self) -> (f: usize)
        requires
            self.wf(),
        ensures
            f == self@.front,
    {
        self.front_frame
    }

    /// The number of slots in the window.
    pub fn len(&self) -> (n: usize)
        requires
            self.wf(),
        ensures
            n == self@.slots.len(),
    {
        self.data.len()
    }

    /// Appends `data` at the tail and returns the frame it was placed at.
    pub fn add_input(&mut self, data: T) -> (frame: usize)
        requires
            old(self).wf(),
            old(self)@.end() < usize::MAX,
        ensures
            final(self).wf(),
            final(self)@ == old(self)@.appended(data),
            frame == old(self)@.end(),
            frame == final(self)@.end() - 1,
    {
        self.canon.push(SlotStatus::Canonical);
        self.data.push(data);
        proof {
            assert(self@.slots =~= old(self)@.appended(data).slots);
        }
        self.front_frame + self.data.len() - 1
    }

    /// Adds a locally produced input for `frame`. Local inputs are produced in
    /// order, so the input goes to the tail: where the window already covers
    /// `frame` nothing changes and `frame` is returned, else the input is
    /// appended and the frame of the tail slot is returned.
    pub fn add_local_input(&mut self, frame: usize, data: T) -> (placed: usize)
        requires
            old(self).wf(),
            frame >= old(self)@.front,
            frame < usize::MAX,
        ensures
            final(self).wf(),
            frame < old(self)@.end() ==> final(self)@ == old(self)@ && placed == frame,
            frame >= old(self)@.end() ==> final(self)@ == old(self)@.appended(data) && placed
                == old(self)@.end(),
    {
        let relative_frame = self.adjust_frame(frame);
        if relative_frame >= self.data.len() {
            self.add_input(data)
        } else {
            frame
        }
    }

    /// Grows the window with empty slots until it has `len` slots.
    fn pad_to(&mut self, len: usize)
        requires
            old(self).wf(),
            old(self)@.front + len <= usize::MAX,
        ensures
            final(self).wf(),
            final(self)@ == old(self)@.padded_to(old(self)@.front + len as nat),
    {
        while self.data.len() < len
            invariant
                self.wf(),
                self.front_frame == old(self).front_frame,
                self.front_frame + len <= usize::MAX,
                old(self).data@.len() <= self.data@.len(),
                self.data@.len() <= len || self.data@.len() == old(self).data@.len(),
                forall|i: int|
                    0 <= i < old(self).data@.len() ==> self@.slots[i] == old(self)@.slots[i],
                forall|i: int|
                    old(self).data@.len() <= i < self.data@.len() ==> self@.slots[i] is Empty,
            decreases len - self.data@.len(),
        {
            let ghost before = self@;
            self.canon.push(SlotStatus::Empty);
            self.data.push(T::default());
            proof {
                assert forall|i: int| 0 <= i < before.slots.len() implies #[trigger] self@.slots[i]
                    == before.slots[i] by {}
                assert forall|i: int|
                    old(self).data@.len() <= i < self.data@.len() implies #[trigger] self@.slots[i] is Empty by {
                    if i < before.slots.len() {
                        assert(before.slots[i] is Empty);
                    }
                }
            }
        }
        proof {
            assert(self@.slots =~= old(self)@.padded_to(old(self)@.front + len as nat).slots);
        }
    }

    /// Records an input that arrived for `frame`, in any order. The first
    /// input of a frame stays; frames that were skipped over become empty
    /// slots.
    pub fn add_network_input(&mut self, frame: usize, data: T)
        requires
            old(self).wf(),
            frame >= old(self)@.front,
            frame < usize::MAX,
        ensures
            final(self).wf(),
            final(self)@ == old(self)@.with_first_write(frame as nat, data),
    {
        let relative_frame = self.adjust_frame(frame);
        if relative_frame >= self.data.len() {
            self.pad_to(relative_frame);
            self.canon.push(SlotStatus::Canonical);
            self.data.push(data);
            proof {
                assert(self@.slots =~= old(self)@.with_first_write(frame as nat, data).slots);
            }
        } else {
            match self.canon[relative_frame] {
                SlotStatus::Canonical => {},
                _ => {
                    self.canon.set(relative_frame, SlotStatus::Canonical);
                    self.data.set(relative_frame, data);
                    proof {
                        assert(self@.slots =~= old(self)@.with_first_write(
                            frame as nat,
                            data,
                        ).slots);
                    }
                },
            }
        }
    }

    /// Whether a canonical input is stored for `frame`.
    pub fn has_input(&self, frame: usize) -> (b: bool)
        requires
            self.wf(),
        ensures
            b == self@.is_canonical(frame as nat),
    {
        if frame < self.front_frame {
            return false;
        }
        let relative_frame = frame - self.front_frame;
        if relative_frame >= self.canon.len() {
            return false;
        }
        match self.canon[relative_frame] {
            SlotStatus::Canonical => true,
            _ => false,
        }
    }

    /// The value stored for `frame`, if the window covers it.
    pub fn get_input(&self, frame: usize) -> (r: Option<&T>)
        requires
            self.wf(),
            frame >= self@.front,
        ensures
            r is Some <==> self@.contains(frame as nat),
            r matches Some(v) ==> slot_holds(self@.slot(frame as nat), *v),
    {
        let relative_frame = self.adjust_frame(frame);
        if relative_frame < self.data.len() {
            Some(&self.data[relative_frame])
        } else {
            None
        }
    }

    /// The frame of the last slot; the front where the window is empty.
    pub fn last_input(&self) -> (frame: usize)
        requires
            self.wf(),
        ensures
            self@.slots.len() > 0 ==> frame == self@.end() - 1,
            self@.slots.len() == 0 ==> frame == self@.front,
    {
        if self.data.len() == 0 {
            self.front_frame
        } else {
            self.front_frame + (self.data.len() - 1)
        }
    }

    /// Up to `amt` trailing entries that end at `frame`, or at the last slot
    /// where the window ends before `frame`, with the frames they cover.
    pub fn get_inputs(&self, frame: usize, amt: usize) -> (r: (FrameRange, &[T]))
        requires
            self.wf(),
            frame >= self@.front,
        ensures
            r.0.first == self@.window_first(frame as nat, amt as nat),
            r.0.end == self@.window_end(frame as nat),
            slots_hold(self@.window(frame as nat, amt as nat), r.1@),
            r.1@.len() == r.0.end - r.0.first,
            forall|i: int|
                0 <= i < r.1@.len() ==> slot_holds(
                    self@.slot((r.0.first + i) as nat),
                    #[trigger] r.1@[i],
                ),
    {
        let relative_frame = self.adjust_frame(frame);
        let len = self.data.len();
        let end_idx: usize = if relative_frame < len {
            relative_frame + 1
        } else {
            len
        };
        let start_idx: usize = if end_idx >= amt {
            end_idx - amt
        } else {
            0
        };
        let slice = vstd::slice::slice_subrange(self.data.as_slice(), start_idx, end_idx);
        let range = FrameRange { first: self.front_frame + start_idx, end: self.front_frame + end_idx };
        proof {
            let w = self@.window(frame as nat, amt as nat);
            assert(w.len() == slice@.len());
            assert forall|i: int| 0 <= i < w.len() implies slot_holds(#[trigger] w[i], slice@[i]) by {
                assert(w[i] == self@.slots[start_idx + i]);
                assert(slice@[i] == self.data@[start_idx + i]);
            }
            assert forall|i: int| 0 <= i < slice@.len() implies slot_holds(
                self@.slot((range.first + i) as nat),
                #[trigger] slice@[i],
            ) by {
                assert(self@.slot((range.first + i) as nat) == w[i]);
            }
        }
        (range, slice)
    }

    /// Drops the slots before `frame` and moves the front there; does nothing
    /// where `frame` is at or before the front.
    pub fn clean(&mut self, frame: usize)
        requires
            old(self).wf(),
        ensures
            final(self).wf(),
            final(self)@ == old(self)@.cleaned(frame as nat),
            final(self)@.front >= old(self)@.front,
            frame <= old(self)@.front ==> final(self)@ == old(self)@,
    {
        proof {
            old(self)@.lemma_cleaned(frame as nat);
        }
        if frame > self.front_frame {
            let front_elements = frame - self.front_frame;
            if front_elements < self.data.len() {
                let kept_data = self.data.split_off(front_elements);
                let kept_canon = self.canon.split_off(front_elements);
                self.data = kept_data;
                self.canon = kept_canon;
            } else {
                self.data = Vec::new();
                self.canon = Vec::new();
            }
            self.front_frame = frame;
            proof {
                assert(self@.slots =~= old(self)@.cleaned(frame as nat).slots);
            }
        }
    }
}

} // verus!
