//! What readers see of a cell whose steps interleave.
//!
//! Readers and the writer of a shared cell take their steps one at a time:
//! a reader arrives and is sent to a slot, copies it, and leaves; the writer
//! arrives and is sent to a slot, fills it, and leaves. Whatever the order of
//! these steps, nobody writes the slot that a reader is on, and with a writer
//! that never goes back no reader sees less than a reader before it.

use super::{steady, Slot, State, MAX_READERS};
use vstd::prelude::*;

verus! {

/// A cell between two steps: its state, what its slots hold, and the value
/// that the reader who arrived last was sent to.
pub struct Cell {
    pub state: State,
    pub slot1: int,
    pub slot2: int,
    pub seen: int,
}

/// A step of a reader or of the writer.
pub enum Event {
    /// A reader arrives.
    ReadStart,
    /// A reader leaves.
    ReadEnd,
    /// The writer arrives with a value.
    WriteStart(int),
    /// The writer leaves.
    WriteEnd,
}

impl Cell {
    /// A cell that nobody has touched: both slots hold `init`.
    pub open spec fn fresh(init: int) -> Cell {
        Cell {
            state: State {
                writer: None,
                reader: None,
                prefer: Slot::Slot2,
                readers: 0,
                backoff: false,
            },
            slot1: init,
            slot2: init,
            seen: init,
        }
    }

    /// What `slot` holds.
    pub open spec fn value(self, slot: Slot) -> int {
        match slot {
            Slot::Slot1 => self.slot1,
            Slot::Slot2 => self.slot2,
        }
    }

    /// The value written last: what the slot holds that is being written,
    /// and else what the preferred slot holds.
    pub open spec fn newest(self) -> int {
        match self.state.writer {
            Some(slot) => self.value(slot),
            None => self.value(self.state.prefer),
        }
    }

    /// Whether `event` can be the next step: a reader arrives while the state
    /// word can count it and leaves only if it has arrived, and there is one
    /// writer, which arrives with a value that is not less than the one it
    /// wrote last.
    pub open spec fn admits(self, event: Event) -> bool {
        match event {
            Event::ReadStart => self.state.readers < MAX_READERS,
            Event::ReadEnd => self.state.readers > 0,
            Event::WriteStart(value) => self.state.writer is None && value >= self.newest(),
            Event::WriteEnd => self.state.writer is Some,
        }
    }

    /// What the reader sees that arrives now: nothing if it has to retry,
    /// else what the slot holds that it is sent to. Nobody writes that slot
    /// while the reader is on it, so this is what the reader copies.
    pub open spec fn sees(self) -> Option<int> {
        if self.state.must_wait() {
            None
        } else {
            Some(self.value(self.state.read_slot()))
        }
    }

    /// The cell after `event`.
    pub open spec fn apply(self, event: Event) -> Cell {
        match event {
            Event::ReadStart => match self.sees() {
                Some(value) => Cell { state: self.state.start_read(), seen: value, ..self },
                None => self,
            },
            Event::ReadEnd => Cell { state: self.state.finish_read(), ..self },
            Event::WriteStart(value) => match self.state.write_slot() {
                Slot::Slot1 => Cell { state: self.state.start_write(), slot1: value, ..self },
                Slot::Slot2 => Cell { state: self.state.start_write(), slot2: value, ..self },
            },
            Event::WriteEnd => Cell { state: self.state.finish_write(), ..self },
        }
    }

    /// Whether these steps can follow each other from here.
    pub open spec fn admits_all(self, events: Seq<Event>) -> bool
        decreases events.len(),
    {
        events.len() > 0 ==> self.admits(events[0]) && self.apply(events[0]).admits_all(
            events.drop_first(),
        )
    }

    /// The cell after these steps.
    pub open spec fn run(self, events: Seq<Event>) -> Cell
        decreases events.len(),
    {
        if events.len() == 0 {
            self
        } else {
            self.apply(events[0]).run(events.drop_first())
        }
    }

    /// What the readers see that get in during these steps, in the order of
    /// their arrival.
    pub open spec fn views(self, events: Seq<Event>) -> Seq<int>
        decreases events.len(),
    {
        if events.len() == 0 {
            Seq::empty()
        } else {
            let rest = self.apply(events[0]).views(events.drop_first());
            match (events[0], self.sees()) {
                (Event::ReadStart, Some(value)) => seq![value] + rest,
                _ => rest,
            }
        }
    }

    /// What holds of a cell between any two steps: the state is steady, the
    /// value written last is the largest in the cell, and neither the slot
    /// that readers are on nor the preferred slot holds less than what the
    /// reader before was sent to.
    pub open spec fn coherent(self) -> bool {
        &&& steady(self.state)
        &&& self.newest() >= self.slot1
        &&& self.newest() >= self.slot2
        &&& self.value(self.state.prefer) >= self.seen
        &&& match self.state.reader {
            Some(slot) => self.value(slot) >= self.seen && self.value(self.state.prefer)
                >= self.value(slot),
            None => true,
        }
    }
}

/// The writer leaves alone the slot that readers are on: what they copy
/// is what they were sent to.
pub proof fn lemma_readers_slot_is_not_written(cell: Cell, value: int, slot: Slot)
    requires
        cell.state.valid(),
        cell.state.writer is None,
        cell.state.reader == Some(slot),
    ensures
        cell.apply(Event::WriteStart(value)).value(slot) == cell.value(slot),
        cell.apply(Event::WriteStart(value)).state.reader == Some(slot),
{
}

/// A step leads from a coherent cell to a coherent cell, and a reader that
/// gets in sees no less than the reader before it.
pub proof fn lemma_step_keeps_coherent(cell: Cell, event: Event)
    requires
        cell.coherent(),
        cell.admits(event),
    ensures
        cell.apply(event).coherent(),
        event is ReadStart ==> match cell.sees() {
            Some(value) => value >= cell.seen && cell.apply(event).seen == value,
            None => cell.apply(event) == cell,
        },
        !(event is ReadStart) ==> cell.apply(event).seen == cell.seen,
{
}

/// Whether no value of `values` is less than `floor` or than a value
/// before it.
pub open spec fn ascending(floor: int, values: Seq<int>) -> bool
    decreases values.len(),
{
    values.len() > 0 ==> values[0] >= floor && ascending(values[0], values.drop_first())
}

/// However the steps of the readers and of a writer that never goes back
/// follow each other: no reader sees less than a reader before it.
pub proof fn lemma_views_are_ascending(cell: Cell, events: Seq<Event>)
    requires
        cell.coherent(),
        cell.admits_all(events),
    ensures
        cell.run(events).coherent(),
        ascending(cell.seen, cell.views(events)),
    decreases events.len(),
{
    if events.len() > 0 {
        lemma_step_keeps_coherent(cell, events[0]);
        let next = cell.apply(events[0]);
        lemma_views_are_ascending(next, events.drop_first());
        let rest = next.views(events.drop_first());
        match (events[0], cell.sees()) {
            (Event::ReadStart, Some(value)) => {
                assert((seq![value] + rest).drop_first() =~= rest);
            },
            _ => {},
        }
    }
}

/// The values that the writer arrives with during these steps.
pub open spec fn written(events: Seq<Event>) -> Set<int> {
    Set::new(
        |value: int|
            exists|i: int| 0 <= i < events.len() && events[i] == Event::WriteStart(value),
    )
}

/// However the steps follow each other: a reader sees a value as a whole,
/// one that the cell held at first or that the writer has arrived with since.
pub proof fn lemma_views_are_whole(cell: Cell, events: Seq<Event>, i: int)
    requires
        0 <= i < cell.views(events).len(),
    ensures
        ({
            let value = cell.views(events)[i];
            value == cell.slot1 || value == cell.slot2 || written(events).contains(value)
        }),
    decreases events.len(),
{
    let next = cell.apply(events[0]);
    let rest = events.drop_first();
    let first = match (events[0], cell.sees()) {
        (Event::ReadStart, Some(value)) => true,
        _ => false,
    };
    if !(first && i == 0) {
        let j = if first {
            i - 1
        } else {
            i
        };
        lemma_views_are_whole(next, rest, j);
        let value = next.views(rest)[j];
        assert(cell.views(events)[i] == value);
        if written(rest).contains(value) {
            let k = choose|k: int| 0 <= k < rest.len() && rest[k] == Event::WriteStart(value);
            assert(events[k + 1] == Event::WriteStart(value));
        } else if value != cell.slot1 && value != cell.slot2 {
            assert(events[0] == Event::WriteStart(value));
        }
    }
}

/// A cell that nobody has touched is coherent.
pub proof fn lemma_fresh_is_coherent(init: int)
    ensures
        Cell::fresh(init).coherent(),
{
}

/// Once the writer has left and the readers have left, the next reader sees
/// the value that was written last.
pub proof fn lemma_final_value_is_seen(cell: Cell)
    requires
        cell.coherent(),
        cell.state.writer is None,
        cell.state.readers == 0,
    ensures
        cell.sees() == Some(cell.newest()),
{
}

} // verus!
