use quick::qcell::{
    initial, reader_begin, reader_end, writer_begin, writer_end, DoubleBufferedCell, Slot,
    BACKOFF, MAX_READERS, P1, P2, R1, R2, RCSH, W1, W2,
};

#[test]
fn a_cell_holds_what_was_written_last() {
    let mut cell = DoubleBufferedCell::new(0_usize);
    assert_eq!(cell.read(), 0);
    for i in 1..=1024 {
        cell.write_uncontended(&i);
        assert_eq!(cell.read(), i);
        assert_eq!(cell.read(), i);
    }
}

#[test]
fn alternating_payloads_are_read_whole() {
    const A: [usize; 8] = [!0, !0, !0, !0, 0, 0, 0, 0];
    const B: [usize; 8] = [0, 0, 0, 0, !0, !0, !0, !0];
    let mut cell = DoubleBufferedCell::new(A);
    let (mut a, mut b) = (0, 0);
    for i in 0..4096 {
        cell.write_uncontended(if i % 2 == 0 { &A } else { &B });
        match cell.read() {
            A => a += 1,
            B => b += 1,
            other => panic!("{:X?}", other),
        }
    }
    assert_eq!(a + b, 4096);
    assert!(a > 4096 / 4, "a={}", a);
    assert!(b > 4096 / 4, "b={}", b);
}

#[test]
fn the_first_write_goes_to_slot_one() {
    let b = initial();
    assert_eq!(b, P2);
    assert_eq!(writer_begin(b), (Slot::Slot1, P2 | W1));
    assert_eq!(writer_end(P2 | W1, Slot::Slot1), P1);
    assert_eq!(writer_begin(P1), (Slot::Slot2, P1 | W2));
    assert_eq!(writer_end(P1 | W2, Slot::Slot2), P2);
}

#[test]
fn readers_go_to_the_preferred_slot_and_are_counted() {
    let one = 1 << RCSH;
    assert_eq!(reader_begin(P1), Some((Slot::Slot1, P1 | R1 | one)));
    assert_eq!(reader_begin(P2), Some((Slot::Slot2, P2 | R2 | one)));
    assert_eq!(reader_begin(P1 | R1 | one), Some((Slot::Slot1, P1 | R1 | 2 * one)));
    assert_eq!(reader_end(P1 | R1 | 2 * one, Slot::Slot1), P1 | R1 | one);
    assert_eq!(reader_end(P1 | R1 | one, Slot::Slot1), P1);
    assert_eq!(reader_end(P2 | W1 | R2 | one, Slot::Slot2), P2 | W1);
    let full = (MAX_READERS - 1) << RCSH;
    assert_eq!(
        reader_begin(P1 | R1 | full),
        Some((Slot::Slot1, P1 | R1 | MAX_READERS << RCSH))
    );
}

#[test]
fn readers_join_those_in_flight_on_the_stale_slot() {
    let one = 1 << RCSH;
    assert_eq!(reader_begin(P1 | R2 | one), Some((Slot::Slot2, P1 | R2 | 2 * one)));
    assert_eq!(reader_begin(P2 | R1 | one), Some((Slot::Slot1, P2 | R1 | 2 * one)));
    assert_eq!(reader_begin(W1 | P2 | R2 | one), Some((Slot::Slot2, W1 | P2 | R2 | 2 * one)));
}

#[test]
fn a_reader_keeps_away_from_the_slot_being_written() {
    let one = 1 << RCSH;
    assert_eq!(reader_begin(W1 | P1), Some((Slot::Slot2, W1 | P1 | R2 | one)));
    assert_eq!(reader_begin(W2 | P2), Some((Slot::Slot1, W2 | P2 | R1 | one)));
    assert_eq!(reader_begin(W2 | P1), Some((Slot::Slot1, W2 | P1 | R1 | one)));
    assert_eq!(reader_begin(W1 | P2), Some((Slot::Slot2, W1 | P2 | R2 | one)));
}

#[test]
fn the_writer_keeps_away_from_the_slot_being_read() {
    let one = 1 << RCSH;
    assert_eq!(writer_begin(P2 | R2 | one), (Slot::Slot1, P2 | R2 | one | W1));
    assert_eq!(writer_begin(P1 | R1 | one), (Slot::Slot2, P1 | R1 | one | W2));
    assert_eq!(writer_begin(P1 | R2 | one), (Slot::Slot1, P1 | R2 | one | W1 | BACKOFF));
    assert_eq!(writer_begin(P2 | R1 | 3 * one), (Slot::Slot2, P2 | R1 | 3 * one | W2 | BACKOFF));
}

#[test]
fn a_pause_holds_new_readers_until_those_in_flight_are_done() {
    let one = 1 << RCSH;
    let (slot, b) = writer_begin(P1 | R2 | 2 * one);
    assert_eq!(slot, Slot::Slot1);
    assert_eq!(reader_begin(b), None);
    let b = reader_end(b, Slot::Slot2);
    assert_eq!(reader_begin(b), None);
    let b = reader_end(b, Slot::Slot2);
    assert_eq!(b, W1 | P1 | BACKOFF);
    assert_eq!(reader_begin(b), None);
    let b = writer_end(b, Slot::Slot1);
    assert_eq!(b, P1 | BACKOFF);
    assert_eq!(reader_begin(b), Some((Slot::Slot1, P1 | R1 | one)));
}

/// Two slots and a state word, with readers and a writer that take their
/// steps one at a time in an order that the test picks.
struct Shared {
    flags: usize,
    slots: [usize; 2],
    writing: Option<Slot>,
    reading: Vec<Slot>,
}

impl Shared {
    fn new(init: usize) -> Self {
        Shared { flags: initial(), slots: [init, init], writing: None, reading: Vec::new() }
    }

    fn start_read(&mut self) -> Option<usize> {
        let (slot, b) = reader_begin(self.flags)?;
        assert_ne!(Some(slot), self.writing, "a reader was sent to the slot being written");
        self.flags = b;
        self.reading.push(slot);
        Some(self.slots[slot.index()])
    }

    fn finish_read(&mut self) {
        let slot = self.reading.pop().unwrap();
        self.flags = reader_end(self.flags, slot);
    }

    fn start_write(&mut self, value: usize) {
        let (slot, b) = writer_begin(self.flags);
        assert!(!self.reading.contains(&slot), "the writer was sent to a slot being read");
        self.flags = b;
        self.writing = Some(slot);
        self.slots[slot.index()] = value;
    }

    fn finish_write(&mut self) {
        let slot = self.writing.take().unwrap();
        self.flags = writer_end(self.flags, slot);
    }
}

#[test]
fn interleaved_steps_never_share_a_slot_and_never_go_back() {
    let mut shared = Shared::new(0);
    let mut seed: u64 = 0x2545_F491_4F6C_DD1D;
    let mut written = 0;
    let mut last_seen = 0;
    let mut reads = 0;
    for _ in 0..200_000 {
        seed ^= seed << 13;
        seed ^= seed >> 7;
        seed ^= seed << 17;
        match seed % 4 {
            0 if shared.reading.len() < 8 => {
                if let Some(value) = shared.start_read() {
                    assert!(value >= last_seen, "next={}, prev={}", value, last_seen);
                    assert!(value <= written);
                    last_seen = value;
                    reads += 1;
                }
            }
            1 if !shared.reading.is_empty() => shared.finish_read(),
            2 if shared.writing.is_none() => {
                written += 1;
                shared.start_write(written);
            }
            3 if shared.writing.is_some() => shared.finish_write(),
            _ => {}
        }
    }
    assert!(reads > 1000);
    while !shared.reading.is_empty() {
        shared.finish_read();
    }
    if shared.writing.is_some() {
        shared.finish_write();
    }
    assert_eq!(shared.start_read(), Some(written));
}

#[test]
fn eight_readers_see_the_final_value() {
    let mut shared = Shared::new(0);
    for i in 0..=1024 {
        for _ in 0..8 {
            let _ = shared.start_read();
        }
        shared.start_write(i);
        while !shared.reading.is_empty() {
            shared.finish_read();
        }
        shared.finish_write();
    }
    for _ in 0..8 {
        assert_eq!(shared.start_read(), Some(1024));
    }
}

#[test]
fn constants_lay_out_the_state_word() {
    assert_eq!((W1, W2, R1, R2, P1, P2), (0x1, 0x2, 0x4, 0x8, 0x10, 0x20));
    assert_eq!((BACKOFF, MAX_READERS, RCSH), (0x8000, 511, 6));
}

#[test]
fn a_cell_keeps_the_value_before_the_last_in_its_other_slot() {
    let mut cell = DoubleBufferedCell::new(7_u32);
    assert_eq!(cell.read(), 7);
    cell.write_uncontended(&8);
    cell.write_uncontended(&9);
    assert_eq!(cell.read(), 9);
}
