//! A double-buffered cell: two slots and one state word.
//!
//! A single writer publishes values; any number of readers copy the freshest
//! value that was written completely. Which slot a reader or the writer may
//! touch is decided by four transitions of the state word alone. They are
//! given here twice: as functions on the decoded [`State`], which say what the
//! protocol is, and as executable functions on the packed word, which are what
//! an atomic update runs. The laws at the end of the file are proved of the
//! former and therefore hold of the latter, and [`history`] follows readers
//! and a writer whose steps interleave.

pub mod history;

use vstd::prelude::*;

verus! {

/// Bits that say which slot is being written.
pub const WMASK: usize = 0x0003;
/// Slot 1 is being written.
pub const W1: usize = 0x0001;
/// Slot 2 is being written.
pub const W2: usize = 0x0002;

/// Bits that say which slot is being read.
pub const RMASK: usize = 0x000C;
/// Position of the lower reader bit.
pub const RSH: usize = 2;
/// Slot 1 is being read.
pub const R1: usize = 0x0004;
/// Slot 2 is being read.
pub const R2: usize = 0x0008;
/// Bits that count the readers in flight.
pub const RCMASK: usize = 0x7FC0;
/// Position of the lowest bit of the reader count.
pub const RCSH: usize = 6;

/// Bits that say which slot new readers should prefer.
pub const PMASK: usize = 0x0030;
/// Position of the lower preference bit.
pub const PSH: usize = 4;
/// Readers prefer slot 1; the writer aims at slot 2.
pub const P1: usize = 0x0010;
/// Readers prefer slot 2; the writer aims at slot 1.
pub const P2: usize = 0x0020;

/// New readers wait until the readers in flight are done.
pub const BACKOFF: usize = 0x8000;

/// The largest number of readers that the state word can count.
pub const MAX_READERS: usize = 0x01FF;

/// Slot 1 is being written and preferred.
pub const W1P1: usize = W1 | P1;
/// Slot 1 is being written, slot 2 preferred.
pub const W1P2: usize = W1 | P2;
/// Slot 1 is being written, slot 2 read, slot 1 preferred.
pub const W1R2P1: usize = W1 | R2 | P1;
/// Slot 1 is being written, slot 2 read and preferred.
pub const W1R2P2: usize = W1 | R2 | P2;
/// Slot 2 is being written, slot 1 preferred.
pub const W2P1: usize = W2 | P1;
/// Slot 2 is being written and preferred.
pub const W2P2: usize = W2 | P2;
/// Slot 2 is being written, slot 1 read and preferred.
pub const W2R1P1: usize = W2 | R1 | P1;
/// Slot 2 is being written, slot 1 read, slot 2 preferred.
pub const W2R1P2: usize = W2 | R1 | P2;
/// Slot 1 is being read and preferred.
pub const R1P1: usize = R1 | P1;
/// Slot 1 is being read, slot 2 preferred.
pub const R1P2: usize = R1 | P2;
/// Slot 2 is being read, slot 1 preferred.
pub const R2P1: usize = R2 | P1;
/// Slot 2 is being read and preferred.
pub const R2P2: usize = R2 | P2;

/// One of the two slots of a cell.
#[derive(Debug, Copy, Clone, PartialEq, Eq, Structural)]
pub enum Slot {
    Slot1,
    Slot2,
}

impl Slot {
    /// The slot that `self` is not.
    pub open spec fn other(self) -> Slot {
        match self {
            Slot::Slot1 => Slot::Slot2,
            Slot::Slot2 => Slot::Slot1,
        }
    }

    /// Position of the slot among the two: 0 or 1.
    pub fn index(self) -> (i: usize)
        ensures
            i == (if self == Slot::Slot1 { 0usize } else { 1usize }),
    {
        match self {
            Slot::Slot1 => 0,
            Slot::Slot2 => 1,
        }
    }
}

/// What a state word says, field by field.
pub struct State {
    /// The slot being written, if any.
    pub writer: Option<Slot>,
    /// The slot that the readers in flight are on, if there are any.
    pub reader: Option<Slot>,
    /// The slot written last: the one new readers should go to.
    pub prefer: Slot,
    /// How many readers are in flight.
    pub readers: nat,
    /// Whether new readers have to wait for those in flight.
    pub backoff: bool,
}

impl State {
    /// The states that the protocol can be in: readers are counted exactly
    /// when a slot is marked as read, the count fits the word, and the writer
    /// is not on the readers' slot.
    pub open spec fn valid(self) -> bool {
        &&& self.reader is Some <==> self.readers > 0
        &&& self.readers <= MAX_READERS
        &&& self.writer is Some ==> self.writer != self.reader
    }

    /// Neither a writer nor a reader is in flight, and nobody has to wait.
    pub open spec fn idle(self) -> bool {
        &&& self.writer is None
        &&& self.reader is None
        &&& self.readers == 0
        &&& !self.backoff
    }

    /// Whether a reader that arrives now has to retry.
    ///
    /// It has to once the writer has asked for a pause and either readers are
    /// still in flight or the writer is on the preferred slot.
    pub open spec fn must_wait(self) -> bool {
        self.backoff && (self.readers > 0 || self.writer == Some(self.prefer))
    }

    /// The slot that a reader who arrives now is sent to.
    ///
    /// It joins the readers in flight if there are any. Otherwise it takes the
    /// preferred slot, unless the writer is on that one.
    pub open spec fn read_slot(self) -> Slot {
        match self.reader {
            Some(slot) => slot,
            None => if self.writer == Some(self.prefer) {
                self.prefer.other()
            } else {
                self.prefer
            },
        }
    }

    /// The state that a reader who gets in leaves behind: it is counted on
    /// its slot, and the pause is over.
    pub open spec fn start_read(self) -> State {
        State {
            reader: Some(self.read_slot()),
            readers: self.readers + 1,
            backoff: false,
            ..self
        }
    }

    /// A reader leaves; the last one out unmarks the slot.
    pub open spec fn finish_read(self) -> State {
        State {
            reader: if self.readers == 1 {
                None
            } else {
                self.reader
            },
            readers: (self.readers - 1) as nat,
            ..self
        }
    }

    /// The slot that the writer takes: the one no reader is on, and with no
    /// reader in flight the one that is not preferred.
    pub open spec fn write_slot(self) -> Slot {
        match self.reader {
            Some(slot) => slot.other(),
            None => self.prefer.other(),
        }
    }

    /// The state that the arriving writer leaves behind. It asks new readers
    /// to wait if those in flight are on the slot that is not preferred, which
    /// leaves it only the preferred one to write.
    pub open spec fn start_write(self) -> State {
        State {
            writer: Some(self.write_slot()),
            backoff: self.backoff || self.reader == Some(self.prefer.other()),
            ..self
        }
    }

    /// The writer leaves and makes its slot the preferred one.
    pub open spec fn finish_write(self) -> State {
        State {
            writer: None,
            prefer: match self.writer {
                Some(slot) => slot,
                None => self.prefer,
            },
            ..self
        }
    }
}

/// The words that stand for a state: at most one writer bit, at most one
/// reader bit, exactly one preference bit, nothing above the backoff bit.
pub open spec fn well_formed(b: usize) -> bool {
    &&& b & WMASK != WMASK
    &&& b & RMASK != RMASK
    &&& (b & PMASK == P1 || b & PMASK == P2)
    &&& b <= 0xFFFF
}

/// The state that a well-formed word stands for.
pub open spec fn decode(b: usize) -> State {
    State {
        writer: if b & WMASK == W1 {
            Some(Slot::Slot1)
        } else if b & WMASK == W2 {
            Some(Slot::Slot2)
        } else {
            None
        },
        reader: if b & RMASK == R1 {
            Some(Slot::Slot1)
        } else if b & RMASK == R2 {
            Some(Slot::Slot2)
        } else {
            None
        },
        prefer: if b & PMASK == P1 {
            Slot::Slot1
        } else {
            Slot::Slot2
        },
        readers: ((b & RCMASK) >> RCSH) as nat,
        backoff: b & BACKOFF != 0,
    }
}

/// A word is usable when it is well formed and its state is valid.
pub open spec fn usable(b: usize) -> bool {
    well_formed(b) && decode(b).valid()
}

/// The word of a fresh cell: idle, with slot 2 preferred, so that the first
/// write goes to slot 1.
pub fn initial() -> (b: usize)
    ensures
        usable(b),
        decode(b).idle(),
        decode(b).prefer == Slot::Slot2,
{
    assert(0x20usize & 0x3 == 0 && 0x20usize & 0xC == 0 && 0x20usize & 0x30 == 0x20 && (0x20usize
        & 0x7FC0) >> 6 == 0 && 0x20usize & 0x8000 == 0) by (bit_vector);
    P2
}

/// The writer, reader and preference bits of a word add up to its low six
/// bits, and each group takes only the values of its own mask.
proof fn lemma_fields(b: usize) by (bit_vector)
    ensures
        b & 0x3F == (b & 0x3) + (b & 0xC) + (b & 0x30),
        b & 0xF == (b & 0x3) + (b & 0xC),
        b & 0x3C == (b & 0xC) + (b & 0x30),
        b & 0x3 <= 3,
        b & 0xC == 0 || b & 0xC == 4 || b & 0xC == 8 || b & 0xC == 12,
        b & 0x30 == 0 || b & 0x30 == 16 || b & 0x30 == 32 || b & 0x30 == 48,
        (b & 0x7FC0) >> 6 <= 0x1FF,
{
}

/// The combined flags are the sums of their parts.
proof fn lemma_combined() by (bit_vector)
    ensures
        0x1usize | 0x10 == 0x11,
        0x1usize | 0x20 == 0x21,
        0x1usize | 0x8 | 0x10 == 0x19,
        0x1usize | 0x8 | 0x20 == 0x29,
        0x2usize | 0x10 == 0x12,
        0x2usize | 0x20 == 0x22,
        0x2usize | 0x4 | 0x10 == 0x16,
        0x2usize | 0x4 | 0x20 == 0x26,
        0x4usize | 0x10 == 0x14,
        0x4usize | 0x20 == 0x24,
        0x8usize | 0x10 == 0x18,
        0x8usize | 0x20 == 0x28,
        0x3usize | 0xC | 0x30 == 0x3F,
        0xCusize | 0x30 == 0x3C,
{
}

/// Marking one more reader on the slot of bit `rdr` changes the reader
/// fields and nothing else.
proof fn lemma_enter(b: usize, rdr: usize) by (bit_vector)
    requires
        b <= 0xFFFF,
        (b & 0x7FC0) >> 6 < 0x1FF,
        rdr == 4 || rdr == 8,
    ensures
        ({
            let w = (b & !0x7FC0) | rdr | ((((b & 0x7FC0) >> 6) + 1) as usize) << 6;
            &&& w & 0x3 == b & 0x3
            &&& w & 0xC == (b & 0xC) | rdr
            &&& w & 0x30 == b & 0x30
            &&& (w & 0x7FC0) >> 6 == ((b & 0x7FC0) >> 6) + 1
            &&& w & 0x8000 == b & 0x8000
            &&& w <= 0xFFFF
            &&& (w & !0x8000) & 0x3 == b & 0x3
            &&& (w & !0x8000) & 0xC == (b & 0xC) | rdr
            &&& (w & !0x8000) & 0x30 == b & 0x30
            &&& ((w & !0x8000) & 0x7FC0) >> 6 == ((b & 0x7FC0) >> 6) + 1
            &&& (w & !0x8000) & 0x8000 == 0
            &&& (w & !0x8000) <= 0xFFFF
        }),
        4usize | 4 == 4,
        8usize | 8 == 8,
        0usize | rdr == rdr,
{
}

/// Counting one reader less, and with `clear` unmarking its slot, changes
/// the reader fields and nothing else.
proof fn lemma_leave(b: usize, rdr: usize, clear: bool) by (bit_vector)
    requires
        b <= 0xFFFF,
        (b & 0x7FC0) >> 6 >= 1,
        b & 0xC == rdr,
        rdr == 4 || rdr == 8,
    ensures
        ({
            let c = if clear {
                b & !rdr
            } else {
                b
            };
            let w = (c & !0x7FC0) | ((((b & 0x7FC0) >> 6) - 1) as usize) << 6;
            &&& (c & 0x7FC0) >> 6 == (b & 0x7FC0) >> 6
            &&& w & 0x3 == b & 0x3
            &&& w & 0xC == (if clear {
                0
            } else {
                rdr
            })
            &&& w & 0x30 == b & 0x30
            &&& (w & 0x7FC0) >> 6 == ((b & 0x7FC0) >> 6) - 1
            &&& w & 0x8000 == b & 0x8000
            &&& w <= 0xFFFF
        }),
{
}

/// Setting the writer bit `wbit`, and with `pause` the backoff bit, changes
/// the writer and backoff fields and nothing else.
proof fn lemma_claim(b: usize, wbit: usize, pause: bool) by (bit_vector)
    requires
        b <= 0xFFFF,
        b & 0x3 == 0,
        wbit == 1 || wbit == 2,
    ensures
        ({
            let w = if pause {
                b | wbit | 0x8000
            } else {
                b | wbit
            };
            &&& w & 0x3 == wbit
            &&& w & 0xC == b & 0xC
            &&& w & 0x30 == b & 0x30
            &&& (w & 0x7FC0) >> 6 == (b & 0x7FC0) >> 6
            &&& (w & 0x8000 != 0) == (pause || b & 0x8000 != 0)
            &&& w <= 0xFFFF
        }),
{
}

/// Clearing the writer bit `wbit` and setting the preference bit `pbit`
/// changes the writer and preference fields and nothing else.
proof fn lemma_publish(b: usize, wbit: usize, pbit: usize) by (bit_vector)
    requires
        b <= 0xFFFF,
        b & 0x3 == wbit,
        wbit == 1 && pbit == 0x10 || wbit == 2 && pbit == 0x20,
    ensures
        ({
            let w = ((b & !wbit) & !0x30) | pbit;
            &&& w & 0x3 == 0
            &&& w & 0xC == b & 0xC
            &&& w & 0x30 == pbit
            &&& (w & 0x7FC0) >> 6 == (b & 0x7FC0) >> 6
            &&& w & 0x8000 == b & 0x8000
            &&& w <= 0xFFFF
        }),
        1usize << 0 == 1,
        2usize << 0 == 2,
        1usize << 4 == 0x10,
        2usize << 4 == 0x20,
{
}

/// The slot that is being written according to the word `b`.
pub fn writer(b: usize) -> (w: Option<Slot>)
    ensures
        w == decode(b).writer,
{
    if b & WMASK == W1 {
        Some(Slot::Slot1)
    } else if b & WMASK == W2 {
        Some(Slot::Slot2)
    } else {
        None
    }
}

/// The slot that readers are on according to the word `b`.
pub fn reader(b: usize) -> (r: Option<Slot>)
    ensures
        r == decode(b).reader,
{
    if b & RMASK == R1 {
        Some(Slot::Slot1)
    } else if b & RMASK == R2 {
        Some(Slot::Slot2)
    } else {
        None
    }
}

/// How many readers are in flight according to the word `b`.
pub fn readers(b: usize) -> (n: usize)
    ensures
        n == decode(b).readers,
{
    (b & RCMASK) >> RCSH
}

/// Whether the word `b` stands for a state that the protocol can be in.
pub fn is_usable(b: usize) -> (ok: bool)
    ensures
        ok == usable(b),
{
    proof {
        lemma_fields(b);
    }
    let w = b & WMASK;
    let r = b & RMASK;
    let p = b & PMASK;
    let n = (b & RCMASK) >> RCSH;
    w != WMASK && r != RMASK && (p == P1 || p == P2) && b <= 0xFFFF && (r != 0) == (n > 0) && !(w
        == W1 && r == R1) && !(w == W2 && r == R2)
}

/// A reader arrives at the word `b`.
///
/// `None` tells the reader to retry later. Otherwise the result holds the slot
/// to copy from and the word to publish in place of `b`. The word counts at
/// most [`MAX_READERS`] readers, so there have to be fewer in flight.
pub fn reader_begin(b: usize) -> (r: Option<(Slot, usize)>)
    requires
        usable(b),
        decode(b).readers < MAX_READERS,
    ensures
        match r {
            None => decode(b).must_wait(),
            Some((slot, w)) => {
                &&& !decode(b).must_wait()
                &&& slot == decode(b).read_slot()
                &&& usable(w)
                &&& decode(w) == decode(b).start_read()
            },
        },
{
    proof {
        lemma_fields(b);
        lemma_combined();
    }
    let num_rdrs = (b & RCMASK) >> RCSH;
    let backoff = (b & BACKOFF) != 0;
    if backoff && num_rdrs > 0 {
        return None;
    }
    let key = b & (WMASK | RMASK | PMASK);
    if backoff && (key == W1P1 || key == W2P2) {
        return None;
    }
    let slot = if key == P1 || key == R1P1 || key == R1P2 || key == W2P1 || key == W2P2 || key
        == W2R1P1 || key == W2R1P2 {
        Slot::Slot1
    } else {
        assert(key == P2 || key == R2P1 || key == R2P2 || key == W1P1 || key == W1P2 || key
            == W1R2P1 || key == W1R2P2);
        Slot::Slot2
    };
    let rdr = match slot {
        Slot::Slot1 => R1,
        Slot::Slot2 => R2,
    };
    proof {
        lemma_enter(b, rdr);
    }
    let mut w = (b & !RCMASK) | rdr | (num_rdrs + 1) << RCSH;
    if backoff {
        w = w & !BACKOFF;
    }
    proof {
        lemma_fields(w);
    }
    Some((slot, w))
}

/// A reader that was sent to `slot` is done at the word `b`; the result is
/// the word to publish in place of `b`.
pub fn reader_end(b: usize, slot: Slot) -> (w: usize)
    requires
        usable(b),
        decode(b).reader == Some(slot),
    ensures
        usable(w),
        decode(w) == decode(b).finish_read(),
{
    proof {
        lemma_fields(b);
    }
    let num_rdrs = (b & RCMASK) >> RCSH;
    let rdr = match slot {
        Slot::Slot1 => R1,
        Slot::Slot2 => R2,
    };
    proof {
        lemma_leave(b, rdr, num_rdrs == 1);
    }
    let mut c = b;
    if num_rdrs == 1 {
        c = c & !rdr;
    }
    let w = (c & !RCMASK) | (num_rdrs - 1) << RCSH;
    proof {
        lemma_fields(w);
    }
    w
}

/// The writer arrives at the word `b`, where no write is in flight; the
/// result holds the slot to write and the word to publish in place of `b`.
pub fn writer_begin(b: usize) -> (r: (Slot, usize))
    requires
        usable(b),
        decode(b).writer is None,
    ensures
        r.0 == decode(b).write_slot(),
        usable(r.1),
        decode(r.1) == decode(b).start_write(),
{
    proof {
        lemma_fields(b);
        lemma_combined();
    }
    let key = b & (RMASK | PMASK);
    let (slot, wbit, pause) = if key == P2 || key == R2P2 {
        (Slot::Slot1, W1, false)
    } else if key == R2P1 {
        (Slot::Slot1, W1, true)
    } else if key == P1 || key == R1P1 {
        (Slot::Slot2, W2, false)
    } else {
        assert(key == R1P2);
        (Slot::Slot2, W2, true)
    };
    proof {
        lemma_claim(b, wbit, pause);
    }
    let w = if pause {
        b | wbit | BACKOFF
    } else {
        b | wbit
    };
    proof {
        lemma_fields(w);
    }
    (slot, w)
}

/// The writer has filled `slot` at the word `b`; the result is the word to
/// publish in place of `b`.
pub fn writer_end(b: usize, slot: Slot) -> (w: usize)
    requires
        usable(b),
        decode(b).writer == Some(slot),
    ensures
        usable(w),
        decode(w) == decode(b).finish_write(),
{
    proof {
        lemma_fields(b);
    }
    let (wbit, pbit) = match slot {
        Slot::Slot1 => (W1, P1),
        Slot::Slot2 => (W2, P2),
    };
    proof {
        lemma_publish(b, wbit, pbit);
    }
    let w = ((b & !wbit) & !PMASK) | pbit;
    proof {
        lemma_fields(w);
    }
    w
}

/// A cell for one context at a time: the four transitions run back to back,
/// so that between two calls the state is idle.
///
/// A cell that is shared between contexts keeps its state word in an atomic
/// and its slots behind raw cells, and runs the same transitions inside its
/// atomic updates.
pub struct DoubleBufferedCell<T> {
    flags: usize,
    slot1: T,
    slot2: T,
}

impl<T> DoubleBufferedCell<T> {
    #[verifier::type_invariant]
    spec fn inv(self) -> bool {
        usable(self.flags) && decode(self.flags).idle()
    }

    /// What `slot` holds.
    pub closed spec fn content(self, slot: Slot) -> T {
        match slot {
            Slot::Slot1 => self.slot1,
            Slot::Slot2 => self.slot2,
        }
    }

    /// The slot that readers are sent to: the one written last, and slot 2
    /// before the first write.
    pub closed spec fn preferred(self) -> Slot {
        decode(self.flags).prefer
    }

    /// The value that the cell holds: the content of the preferred slot.
    pub open spec fn value(self) -> T {
        self.content(self.preferred())
    }
}

impl<T: Copy> DoubleBufferedCell<T> {
    /// Creates a new cell with an initial value, which seeds both slots.
    /// Slot 2 is preferred, so that the first write goes to slot 1.
    pub fn new(init: T) -> (cell: Self)
        ensures
            cell.content(Slot::Slot1) == init,
            cell.content(Slot::Slot2) == init,
            cell.preferred() == Slot::Slot2,
    {
        DoubleBufferedCell { flags: initial(), slot1: init, slot2: init }
    }

    /// Reads the most recent value written to the cell.
    pub fn read(&self) -> (val: T)
        ensures
            val == self.value(),
    {
        proof {
            use_type_invariant(self);
        }
        match reader_begin(self.flags) {
            Some((slot, b)) => {
                let val = match slot {
                    Slot::Slot1 => self.slot1,
                    Slot::Slot2 => self.slot2,
                };
                // the reader leaves at once: the word that it would publish is
                // the one that was there
                let done = reader_end(b, slot);
                assert(decode(done) == decode(self.flags));
                val
            },
            None => unreached(),
        }
    }

    /// Writes a value to the cell, which the next read returns.
    ///
    /// The value goes to the slot that is not preferred, which is preferred
    /// from then on; the other slot keeps what it holds.
    pub fn write_uncontended(&mut self, value: &T)
        ensures
            final(self).preferred() == old(self).preferred().other(),
            final(self).content(final(self).preferred()) == *value,
            final(self).content(old(self).preferred()) == old(self).content(
                old(self).preferred(),
            ),
    {
        proof {
            use_type_invariant(&*self);
        }
        let (slot, b) = writer_begin(self.flags);
        let done = writer_end(b, slot);
        *self = match slot {
            Slot::Slot1 => DoubleBufferedCell { flags: done, slot1: *value, slot2: self.slot2 },
            Slot::Slot2 => DoubleBufferedCell { flags: done, slot1: self.slot1, slot2: *value },
        };
    }
}

/// A reader that gets in is sent to a slot that is not being written, and
/// leaves the writer and the preference as they were.
pub proof fn lemma_reader_avoids_writer(s: State)
    requires
        s.valid(),
        s.readers < MAX_READERS,
        !s.must_wait(),
    ensures
        ({
            let slot = s.read_slot();
            let t = s.start_read();
            &&& t.valid()
            &&& t.reader == Some(slot)
            &&& t.writer != Some(slot)
            &&& t.writer == s.writer
            &&& t.prefer == s.prefer
            &&& t.readers == s.readers + 1
        }),
{
}

/// A reader that leaves keeps the state valid, and changes neither the
/// writer nor the preference nor the pause.
pub proof fn lemma_reader_leaves(s: State)
    requires
        s.valid(),
        s.readers > 0,
    ensures
        s.finish_read().valid(),
        s.finish_read().writer == s.writer,
        s.finish_read().prefer == s.prefer,
        s.finish_read().backoff == s.backoff,
        s.finish_read().readers == s.readers - 1,
{
}

/// The writer is sent to a slot that no reader is on, and leaves the readers
/// and the preference as they were. It takes the preferred slot only when
/// readers are in flight on the other one, and then it asks for a pause.
pub proof fn lemma_writer_avoids_readers(s: State)
    requires
        s.valid(),
        s.writer is None,
    ensures
        ({
            let slot = s.write_slot();
            let t = s.start_write();
            &&& t.valid()
            &&& t.writer == Some(slot)
            &&& t.reader != Some(slot)
            &&& t.reader == s.reader
            &&& t.readers == s.readers
            &&& t.prefer == s.prefer
            &&& slot == s.prefer <==> s.reader == Some(s.prefer.other())
            &&& slot == s.prefer ==> t.backoff
        }),
{
}

/// The preference changes only when a write completes, and then to the slot
/// that was written.
pub proof fn lemma_writer_publishes(s: State, slot: Slot)
    requires
        s.valid(),
        s.writer == Some(slot),
    ensures
        s.finish_write().valid(),
        s.finish_write().writer is None,
        s.finish_write().prefer == slot,
        s.finish_write().reader == s.reader,
        s.finish_write().readers == s.readers,
        s.finish_write().backoff == s.backoff,
{
}

/// With no reader in flight, a reader that arrives after a write has
/// completed is sent to the slot that was written.
pub proof fn lemma_read_after_write_is_fresh(s: State)
    requires
        s.valid(),
        s.writer is None,
        s.reader is None,
    ensures
        ({
            let u = s.start_write().finish_write();
            &&& !u.must_wait()
            &&& u.read_slot() == s.write_slot()
        }),
{
}

/// While the writer has asked for a pause and readers are in flight, no
/// reader gets in, and readers that leave do not end the pause; once the last
/// one has left and no write is on the preferred slot, the next reader gets
/// in and ends it.
pub proof fn lemma_pause_drains_readers(s: State)
    requires
        s.valid(),
        s.backoff,
    ensures
        s.readers > 0 ==> s.must_wait() && s.finish_read().backoff,
        s.readers == 0 && s.writer != Some(s.prefer) ==> !s.must_wait()
            && !s.start_read().backoff,
{
}

/// The states in which a write on the preferred slot goes with a pause.
/// The protocol starts in one and never leaves them, so a reader is never
/// sent away from the preferred slot by the writer: it waits instead.
pub open spec fn steady(s: State) -> bool {
    s.valid() && (s.writer == Some(s.prefer) ==> s.backoff)
}

/// Every transition leads from a steady state to a steady state.
pub proof fn lemma_steady_is_kept(s: State)
    requires
        steady(s),
    ensures
        s.readers < MAX_READERS && !s.must_wait() ==> steady(s.start_read()),
        s.readers > 0 ==> steady(s.finish_read()),
        s.writer is None ==> steady(s.start_write()),
        s.writer is Some ==> steady(s.finish_write()),
{
}

/// In a steady state a reader that gets in joins the readers in flight, or
/// with none in flight takes the preferred slot.
pub proof fn lemma_steady_reader_slot(s: State)
    requires
        steady(s),
        !s.must_wait(),
    ensures
        s.read_slot() == (match s.reader {
            Some(slot) => slot,
            None => s.prefer,
        }),
{
}

} // verus!
