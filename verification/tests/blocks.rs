//! The library's own register and memory types, range checks and widths.
use peakrdl_rust::access::{RW, W};
use peakrdl_rust::endian::{BigEndian, Endian, LittleEndian};
use peakrdl_rust::io::MockIO;
use peakrdl_rust::masked_mem::{self, MaskedMemoryBlock};
use peakrdl_rust::mem::{self, Bound, MemoryBlock, MemoryEntries};
use peakrdl_rust::reg::{RawRegister, Reg, RegInt, Register};

type Ctrl32 = RawRegister<u32, u16, RW, LittleEndian, BigEndian>;

#[test]
fn raw_register_round_trip() {
    let r = Ctrl32::new(0x1234_5678);
    assert_eq!(r.value(), 0x1234_5678);
    assert_eq!(Ctrl32::from_raw(7).to_raw(), 7);
    assert_eq!(Ctrl32::default().value(), 0);
}

#[test]
fn raw_register_write_read_modify() {
    let mut io = MockIO::<8>::new_zeroed();
    let reg: Reg<Ctrl32> = Reg::from_ptr(4);
    reg.write_value(&mut io, Ctrl32::new(0x1234_5678));
    // words big-endian, bytes within a word little-endian
    let mut bytes = [0u8; 4];
    for (k, b) in bytes.iter_mut().enumerate() {
        *b = peakrdl_rust::io::RawRegisterIO::try_read(&mut io, 4 + k, 1).unwrap()[0];
    }
    assert_eq!(bytes, [0x34, 0x12, 0x78, 0x56]);
    assert_eq!(reg.read(&mut io).value(), 0x1234_5678);
    let old = reg.modify(&mut io, |r| {
        let before = r.value();
        *r = Ctrl32::new(before + 1);
        before
    });
    assert_eq!(old, 0x1234_5678);
    assert_eq!(reg.read(&mut io).value(), 0x1234_5679);
    reg.write(&mut io, |r| *r = Ctrl32::new(0xff));
    assert_eq!(reg.read(&mut io).value(), 0xff);
}

#[test]
fn reg_is_copy_and_comparable() {
    let a: Reg<Ctrl32> = Reg::from_ptr(8);
    let b = a;
    assert_eq!(a.as_ptr(), b.as_ptr());
}

#[test]
fn memory_block_entries_and_access() {
    let mem: MemoryBlock<u16, RW, BigEndian> = MemoryBlock::new(2, 3, 16);
    assert_eq!(mem::Memory::num_entries(&mem), 3);
    assert_eq!(mem::Memory::width(&mem), 16);
    assert_eq!(mem.index(2).as_ptr(), 6);
    let mut io = MockIO::<8>::new_zeroed();
    let mut e = mem.index(1);
    e.write(&mut io, 0xabcd);
    assert_eq!(e.read(&mut io), 0xabcd);
    assert_eq!(peakrdl_rust::io::RawRegisterIO::try_read(&mut io, 4, 2).unwrap(), vec![0xab, 0xcd]);
    let mut it = mem.iter();
    assert_eq!(it.next_back().unwrap().as_ptr(), 6);
    assert_eq!(it.next().unwrap().as_ptr(), 2);
    assert_eq!(it.next().unwrap().as_ptr(), 4);
    assert!(it.next().is_none());
}

#[test]
fn slice_ranges_must_stay_inside_the_memory() {
    assert!(mem::range_ok(Bound::Included(0), Bound::Excluded(5), 5));
    assert!(!mem::range_ok(Bound::Included(0), Bound::Excluded(10), 5));
    assert!(!mem::range_ok(Bound::Included(2), Bound::Excluded(2), 5));
    assert!(!mem::range_ok(Bound::Unbounded, Bound::Unbounded, 0));
    assert!(!mem::range_ok(Bound::Excluded(usize::MAX), Bound::Unbounded, 5));
    assert!(masked_mem::range_ok(Bound::Included(2), Bound::Excluded(2), 5));
    assert!(!masked_mem::range_ok(Bound::Included(0), Bound::Excluded(10), 5));
    assert!(masked_mem::range_ok(Bound::Unbounded, Bound::Included(4), 5));
}

#[test]
fn entries_must_fit_the_address_space() {
    let fits: MemoryBlock<u32, RW, LittleEndian> = MemoryBlock::new(0, 4, 32);
    assert!(mem::entries_fit_space(&fits));
    let too_far: MemoryBlock<u32, RW, LittleEndian> = MemoryBlock::new(usize::MAX - 7, 4, 32);
    assert!(!mem::entries_fit_space(&too_far));
    let masked: MaskedMemoryBlock<u64, W> = MaskedMemoryBlock::new(usize::MAX - 8, 1, 64);
    assert!(masked_mem::entries_fit_space(&masked));
}

#[test]
fn full_width_entries_keep_every_bit() {
    let mem: MaskedMemoryBlock<u64, RW> = MaskedMemoryBlock::new(0, 5, 64);
    let e = masked_mem::MemoryEntries::index(&mem, 4);
    assert_eq!(e.as_ptr(), 32);
    assert!(e.fits());
    assert_eq!(e.mask(), u64::MAX);
    assert_eq!(e.masked(0xdead_beef_0123_4567), 0xdead_beef_0123_4567);
    let e: masked_mem::MemEntry<u8, RW> = masked_mem::MemEntry::from_ptr(0, 8);
    assert_eq!(e.mask(), 0xff);
    assert_eq!(e.masked(0xa5), 0xa5);
}

#[test]
fn widths_that_leave_no_room_for_the_mask() {
    let e: masked_mem::MemEntry<u16, RW> = masked_mem::MemEntry::from_ptr(0, 17);
    assert!(!e.fits());
    let e: masked_mem::MemEntry<i16, RW> = masked_mem::MemEntry::from_ptr(0, 15);
    assert!(!e.fits());
    let e: masked_mem::MemEntry<i16, RW> = masked_mem::MemEntry::from_ptr(0, 14);
    assert!(e.fits());
    assert!(i16::is_signed());
    assert!(!u16::is_signed());
}

#[test]
fn little_endian_significance_is_the_address_order() {
    assert_eq!(LittleEndian::address_order_to_significance(5, 2), 5);
    assert_eq!(BigEndian::address_order_to_significance(0, 4), 3);
}

/// A transport over `N` bytes whose writes fail from the `fail_at`-th on.
struct FlakyIO {
    data: Vec<u8>,
    writes: usize,
    fail_at: usize,
}

impl peakrdl_rust::io::RawRegisterIO for FlakyIO {
    type Error = ();

    fn try_read(&mut self, addr: usize, width: usize) -> Result<Vec<u8>, ()> {
        Ok(self.data[addr..addr + width].to_vec())
    }

    fn try_write(&mut self, addr: usize, bytes: &[u8]) -> Result<(), ()> {
        self.writes += 1;
        if self.writes >= self.fail_at {
            return Err(());
        }
        self.data[addr..addr + bytes.len()].copy_from_slice(bytes);
        Ok(())
    }
}

type Wide64 = RawRegister<u64, u16, RW, LittleEndian, LittleEndian>;

#[test]
fn interrupted_write_keeps_earlier_words_and_later_bytes() {
    let mut io = FlakyIO { data: vec![0xee; 10], writes: 0, fail_at: 3 };
    let reg: Reg<Wide64> = Reg::from_ptr(1);
    let r = reg.try_write_value(&mut io, Wide64::new(0x8877_6655_4433_2211));
    assert!(r.is_err());
    // the first two words were written; the third failed; the fourth and
    // the bytes outside the register are untouched
    assert_eq!(io.data, vec![0xee, 0x11, 0x22, 0x33, 0x44, 0xee, 0xee, 0xee, 0xee, 0xee]);
    assert_eq!(io.writes, 3);
}

#[test]
fn mock_io_keeps_its_size() {
    let mut io = MockIO::<12>::new_zeroed();
    assert_eq!(io.size(), 12);
    peakrdl_rust::io::RawRegisterIO::try_write(&mut io, 10, &[1, 2]).unwrap();
    assert_eq!(io.size(), 12);
}
