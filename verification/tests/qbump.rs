use quick::qbump::steps::{is_last, try_move};
use quick::qbump::{AtomicBump, Bump};

/// The address that the buffers of these tests start at: a multiple of every
/// alignment that is asked for.
const BASE: usize = 0x1000;

/// Memory for an arena over `len` bytes from `BASE` on.
struct Mem {
    bytes: Vec<u8>,
}

impl Mem {
    fn new(len: usize) -> Self {
        Mem { bytes: vec![0; len] }
    }

    fn write_i32(&mut self, addr: usize, value: i32) {
        self.bytes[addr - BASE..addr - BASE + 4].copy_from_slice(&value.to_ne_bytes());
    }

    fn read_i32(&self, addr: usize) -> i32 {
        let mut raw = [0; 4];
        raw.copy_from_slice(&self.bytes[addr - BASE..addr - BASE + 4]);
        i32::from_ne_bytes(raw)
    }
}

trait V {
    fn v(&self) -> i32;
}

struct W(i32);

impl V for W {
    fn v(&self) -> i32 {
        self.0
    }
}

#[test]
fn empty_bump() {
    let mut bump = Bump::from_ptr(BASE, 0);
    assert!(bump.allocate(4, 4).is_err());
}

#[test]
fn bump_zst() {
    let mut bump = Bump::from_ptr(BASE, 0);
    let _zst = bump.allocate(0, 1).unwrap();
}

#[test]
fn bump_align_1() {
    let mut bump = Bump::from_ptr(BASE, 1);
    let ptr = bump.allocate(1, 1).unwrap();
    assert_eq!(ptr % 1, 0);
}

#[test]
fn bump_align_2() {
    let mut bump = Bump::from_ptr(BASE, 4);
    let _ = bump.allocate(1, 1).unwrap();
    let ptr = bump.allocate(2, 2).unwrap();
    assert_eq!(ptr % 2, 0);
}

#[test]
fn bump_align_4() {
    let mut bump = Bump::from_ptr(BASE, 8);
    let _ = bump.allocate(1, 1).unwrap();
    let ptr = bump.allocate(4, 4).unwrap();
    assert_eq!(ptr % 4, 0);
}

#[test]
fn bump_align_8() {
    let mut bump = Bump::from_ptr(BASE, 16);
    let _ = bump.allocate(1, 1).unwrap();
    let ptr = bump.allocate(8, 8).unwrap();
    assert_eq!(ptr % 8, 0);
}

#[test]
fn bump_align_16() {
    let mut bump = Bump::from_ptr(BASE, 32);
    let _ = bump.allocate(1, 1).unwrap();
    let ptr = bump.allocate(16, 16).unwrap();
    assert_eq!(ptr % 16, 0);
}

#[test]
fn bump_drop_one() {
    let mut bump = Bump::from_ptr(BASE, 4);
    let ptr = bump.allocate(4, 4).unwrap();
    assert!(bump.allocate(4, 4).is_err());
    bump.deallocate(ptr, 4, 4);
    assert!(bump.allocate(4, 4).is_ok());
}

#[test]
fn bump_drop_many() {
    let mut bump = Bump::from_ptr(BASE, 12);
    let ptr1 = bump.allocate(4, 4).unwrap();
    let ptr2 = bump.allocate(4, 4).unwrap();
    let ptr3 = bump.allocate(4, 4).unwrap();
    assert!(bump.allocate(4, 4).is_err());
    bump.deallocate(ptr3, 4, 4);
    assert!(bump.allocate(4, 4).is_err());
    bump.deallocate(ptr2, 4, 4);
    assert!(bump.allocate(4, 4).is_err());
    bump.deallocate(ptr1, 4, 4);
    assert!(bump.allocate(4, 4).is_ok());
}

#[test]
fn bump_dyn() {
    let mut mem = Mem::new(4);
    let mut bump = Bump::from_ptr(BASE, 4);
    let ptr = bump.allocate(4, 4).unwrap();
    mem.write_i32(ptr, W(123).0);
    let w = W(mem.read_i32(ptr));
    let v: &dyn V = &w;
    assert_eq!(v.v(), 123);
}

#[test]
fn static_bump() {
    let mut mem = Mem::new(8);
    let mut bump = Bump::from_ptr(BASE, 8);
    let ptr = bump.allocate(4, 4).unwrap();
    mem.write_i32(ptr, 123_i32);
    assert_eq!(mem.read_i32(ptr), 123);
}

#[test]
fn global_bump_dyn() {
    let mut mem = Mem::new(128 * 1024);
    let mut bump = Bump::from_ptr(BASE, 128 * 1024);
    let ptr = bump.allocate(4, 4).unwrap();
    mem.write_i32(ptr, W(123).0);
    let w = W(mem.read_i32(ptr));
    let v: &dyn V = &w;
    assert_eq!(v.v(), 123);
}

#[test]
fn allocations_grow_downward_from_the_top() {
    let mut bump = Bump::from_ptr(BASE, 32);
    assert_eq!(bump.allocate(1, 1), Ok(BASE + 31));
    assert_eq!(bump.allocate(4, 4), Ok(BASE + 24));
    assert_eq!(bump.allocate(3, 2), Ok(BASE + 20));
    assert_eq!(bump.allocate(16, 16), Ok(BASE));
    assert!(bump.allocate(1, 1).is_err());
    assert_eq!(bump.count(), 4);
}

#[test]
fn a_request_for_no_bytes_changes_nothing() {
    let mut bump = Bump::from_ptr(BASE, 8);
    assert_eq!(bump.allocate(0, 8), Ok(8));
    assert_eq!(bump.allocate(0, 1), Ok(1));
    assert_eq!(bump.count(), 0);
    assert_eq!(bump.allocate(8, 8), Ok(BASE));
    assert_eq!(bump.allocate(0, 4), Ok(4));
    bump.deallocate(4, 0, 4);
    assert_eq!(bump.count(), 1);
}

#[test]
fn a_request_that_does_not_fit_changes_nothing() {
    let mut bump = Bump::from_ptr(BASE, 8);
    assert_eq!(bump.allocate(3, 1), Ok(BASE + 5));
    assert!(bump.allocate(6, 1).is_err());
    assert!(bump.allocate(usize::MAX, 1).is_err());
    assert_eq!(bump.count(), 1);
    assert_eq!(bump.allocate(5, 1), Ok(BASE));
    assert_eq!(bump.count(), 2);
}

#[test]
fn rounding_down_may_lead_below_the_range() {
    let mut bump = Bump::from_ptr(BASE + 1, 8);
    assert!(bump.allocate(8, 8).is_err());
    assert_eq!(bump.allocate(1, 8), Ok(BASE + 8));
    assert!(bump.allocate(1, 8).is_err());
    assert_eq!(bump.allocate(7, 1), Ok(BASE + 1));
}

#[test]
fn the_arena_starts_over_when_the_count_is_back_at_zero() {
    let mut bump = Bump::from_ptr(BASE, 16);
    for round in 0..100 {
        let a = bump.allocate(8, 8).unwrap();
        let b = bump.allocate(8, 8).unwrap();
        assert_eq!((a, b), (BASE + 8, BASE));
        assert_eq!(bump.count(), 2);
        if round % 2 == 0 {
            bump.deallocate(a, 8, 8);
            assert!(bump.allocate(8, 8).is_err());
            bump.deallocate(b, 8, 8);
        } else {
            bump.deallocate(b, 8, 8);
            assert!(bump.allocate(8, 8).is_err());
            bump.deallocate(a, 8, 8);
        }
        assert_eq!(bump.count(), 0);
    }
}

#[test]
fn atomic_bump_serves_what_bump_serves() {
    let bump = AtomicBump::from_ptr(BASE, 32);
    assert_eq!(bump.allocate(0, 16), Ok(16));
    assert_eq!(bump.allocate(1, 1), Ok(BASE + 31));
    assert_eq!(bump.allocate(4, 4), Ok(BASE + 24));
    assert_eq!(bump.allocate(16, 16), Ok(BASE));
    assert!(bump.allocate(1, 1).is_err());
    assert_eq!(bump.count(), 3);
    bump.deallocate(BASE, 16, 16);
    bump.deallocate(BASE + 24, 4, 4);
    assert!(bump.allocate(1, 1).is_err());
    bump.deallocate(BASE + 31, 1, 1);
    assert_eq!(bump.count(), 0);
    assert_eq!(bump.allocate(32, 16), Ok(BASE));
}

#[test]
fn atomic_bump_rounds_of_mixed_sizes() {
    let bump = AtomicBump::from_ptr(BASE, 256);
    for _ in 0..1024 {
        let mut live = Vec::new();
        for _ in 0..4 {
            for size in [2usize, 4, 8] {
                let addr = bump.allocate(size, size).unwrap();
                assert_eq!(addr % size, 0);
                assert!(BASE <= addr && addr + size <= BASE + 256);
                live.push((addr, size));
            }
        }
        assert_eq!(bump.count(), 12);
        for (addr, size) in live {
            bump.deallocate(addr, size, size);
        }
        assert_eq!(bump.count(), 0);
    }
    assert_eq!(bump.allocate(256, 1), Ok(BASE));
}

#[test]
fn a_move_is_refused_from_behind_the_range() {
    assert_eq!(try_move(BASE + 32, 4, 4, BASE, BASE + 32), Some(BASE + 28));
    assert_eq!(try_move(BASE + 5, 4, 4, BASE, BASE + 32), Some(BASE));
    assert_eq!(try_move(BASE + 3, 4, 4, BASE, BASE + 32), None);
    assert_eq!(try_move(BASE + 33, 4, 4, BASE, BASE + 32), None);
    assert_eq!(try_move(usize::MAX, 1, 1, BASE, BASE + 32), None);
    assert_eq!(try_move(BASE, 4, 4, BASE, BASE), None);
}

#[test]
fn the_call_that_finds_one_allocation_counted_is_the_last() {
    assert!(is_last(1));
    assert!(!is_last(0));
    assert!(!is_last(2));
    assert!(!is_last(usize::MAX));
}
